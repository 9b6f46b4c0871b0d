//! What is shown of an address is read as that address.

use vstd::prelude::*;
use crate::chars;
use crate::fields;
use crate::ip;
use crate::number;
use crate::text;

verus! {

/// A numeral in decimal stands for its number.
pub proof fn lemma_decimal(value: nat)
    ensures
        number::numeral(text::decimal(value)) == value,
        number::all_digits(text::decimal(value)),
        text::decimal(value).len() >= 1,
        text::decimal(value).len() > 1 ==> text::decimal(value)[0] != '0',
        value < 10 ==> text::decimal(value).len() == 1,
        value > 0 ==> text::decimal(value)[0] != '0',
    decreases value,
{
    let shown = text::decimal(value);
    if value < 10 {
        assert(shown.drop_last() =~= Seq::empty());
        assert(number::numeral(Seq::<char>::empty()) == 0);
        assert(shown.last() as int - '0' as int == value);
    } else {
        let front = text::decimal(value / 10);
        lemma_decimal(value / 10);
        assert(shown.drop_last() =~= front);
        assert(shown.last() as int - '0' as int == value % 10);
        assert forall|i: int| 0 <= i < shown.len() implies chars::is_digit(#[trigger] shown[i]) by {
            if i < front.len() {
                assert(shown[i] == front[i]);
            }
        }
        assert(shown[0] == front[0]);
    }
}

/// A small number takes few digits.
proof fn lemma_octet(value: nat)
    requires
        value <= 255,
    ensures
        ip::octet_of(text::decimal(value)) == Some(value),
        text::decimal(value).len() <= 3,
        !text::decimal(value).contains('.'),
        !text::decimal(value).contains(':'),
{
    lemma_decimal(value);
    let shown = text::decimal(value);
    if value >= 10 {
        lemma_decimal(value / 10);
        if value >= 100 {
            lemma_decimal(value / 10 / 10);
            assert(text::decimal(value / 10 / 10).len() == 1);
            assert(text::decimal(value / 10).len() == 2);
        } else {
            assert(text::decimal(value / 10).len() == 1);
        }
    }
    if shown.contains('.') {
        let i = choose|i: int| 0 <= i < shown.len() && shown[i] == '.';
        assert(chars::is_digit(shown[i]));
    }
    if shown.contains(':') {
        let i = choose|i: int| 0 <= i < shown.len() && shown[i] == ':';
        assert(chars::is_digit(shown[i]));
    }
}

/// Where nothing comes before it, the separator is found.
pub proof fn lemma_find_at(text: Seq<char>, separator: char, from: int, at: int)
    requires
        0 <= from <= at <= text.len(),
        forall|i: int| from <= i < at ==> text[i] != separator,
        at < text.len() ==> text[at] == separator,
    ensures
        fields::find(text, separator, from) == at,
    decreases at - from,
{
    if from < at {
        lemma_find_at(text, separator, from + 1, at);
    }
}

/// A text without separators is one field.
pub proof fn lemma_one_field(part: Seq<char>, separator: char)
    requires
        !part.contains(separator),
    ensures
        fields::fields(part, separator) == seq![part],
{
    assert forall|i: int| 0 <= i < part.len() implies part[i] != separator by {
        assert(part.contains(part[i]));
    }
    lemma_find_at(part, separator, 0, part.len() as int);
}

/// The first field, and the others.
pub proof fn lemma_first_field(part: Seq<char>, rest: Seq<char>, separator: char)
    requires
        !part.contains(separator),
    ensures
        fields::fields(part + seq![separator] + rest, separator) == seq![part] + fields::fields(
            rest,
            separator,
        ),
{
    let whole = part + seq![separator] + rest;
    assert forall|i: int| 0 <= i < part.len() implies whole[i] != separator by {
        assert(part.contains(part[i]));
        assert(whole[i] == part[i]);
    }
    assert(whole[part.len() as int] == separator);
    lemma_find_at(whole, separator, 0, part.len() as int);
    assert(whole.take(part.len() as int) =~= part);
    assert(whole.skip(part.len() as int + 1) =~= rest);
}

/// The last field, and the others.
proof fn lemma_last_field(front: Seq<char>, part: Seq<char>, separator: char)
    requires
        !part.contains(separator),
    ensures
        fields::fields(front + seq![separator] + part, separator) == fields::fields(
            front,
            separator,
        ).push(part),
    decreases front.len(),
{
    let stop = fields::find(front, separator, 0);
    fields::lemma_find(front, separator, 0);
    if stop >= front.len() {
        assert(!front.contains(separator)) by {
            if front.contains(separator) {
                let i = choose|i: int| 0 <= i < front.len() && front[i] == separator;
            }
        }
        lemma_one_field(front, separator);
        lemma_first_field(front, part, separator);
        lemma_one_field(part, separator);
        assert(seq![front] + seq![part] =~= seq![front].push(part));
    } else {
        let head = front.take(stop);
        let rest = front.skip(stop + 1);
        assert(!head.contains(separator)) by {
            if head.contains(separator) {
                let i = choose|i: int| 0 <= i < head.len() && head[i] == separator;
                assert(front[i] == separator);
            }
        }
        lemma_last_field(rest, part, separator);
        lemma_first_field(head, rest + seq![separator] + part, separator);
        assert(front + seq![separator] + part =~= head + seq![separator] + (rest + seq![separator]
            + part));
        assert(seq![head] + fields::fields(rest, separator).push(part) =~= (seq![head]
            + fields::fields(rest, separator)).push(part));
    }
}

/// Four parts between dots are four fields.
proof fn lemma_four_fields(a: Seq<char>, b: Seq<char>, c: Seq<char>, d: Seq<char>)
    requires
        !a.contains('.'),
        !b.contains('.'),
        !c.contains('.'),
        !d.contains('.'),
    ensures
        fields::fields(a + seq!['.'] + b + seq!['.'] + c + seq!['.'] + d, '.') == seq![a, b, c, d],
{
    let front = a + seq!['.'] + b;
    lemma_one_field(a, '.');
    lemma_last_field(a, b, '.');
    lemma_last_field(front, c, '.');
    lemma_last_field(front + seq!['.'] + c, d, '.');
    assert(seq![a].push(b).push(c).push(d) =~= seq![a, b, c, d]);
}

/// The four numbers of an address.
proof fn lemma_four_numbers(address: nat)
    requires
        address <= 0xffff_ffff,
    ensures
        address / 0x100_0000 <= 255,
        address / 0x1_0000 % 0x100 <= 255,
        address / 0x100 % 0x100 <= 255,
        address % 0x100 <= 255,
        address / 0x100_0000 * 0x100_0000 + address / 0x1_0000 % 0x100 * 0x1_0000 + address / 0x100
            % 0x100 * 0x100 + address % 0x100 == address,
{
}

/// A version four address is read as it was shown.
pub proof fn shown_v4_is_read_back(address: nat)
    requires
        address <= 0xffff_ffff,
    ensures
        ip::v4_of(ip::v4_text(address)) == Some(address),
{
    let a = address / 0x100_0000;
    let b = address / 0x1_0000 % 0x100;
    let c = address / 0x100 % 0x100;
    let d = address % 0x100;
    lemma_four_numbers(address);
    lemma_octet(a);
    lemma_octet(b);
    lemma_octet(c);
    lemma_octet(d);
    lemma_four_fields(text::decimal(a), text::decimal(b), text::decimal(c), text::decimal(d));
    let parts = fields::fields(ip::v4_text(address), '.');
    assert(parts == seq![text::decimal(a), text::decimal(b), text::decimal(c), text::decimal(d)]);
    assert(parts[0] == text::decimal(a) && parts[1] == text::decimal(b) && parts[2]
        == text::decimal(c) && parts[3] == text::decimal(d));
}

/// A version four address takes seven characters or more.
proof fn lemma_v4_long(address: nat)
    ensures
        ip::v4_text(address).len() >= 7,
{
    lemma_decimal(address / 0x100_0000);
    lemma_decimal(address / 0x1_0000 % 0x100);
    lemma_decimal(address / 0x100 % 0x100);
    lemma_decimal(address % 0x100);
}

proof fn lemma_v4_plain(address: nat)
    requires
        address <= 0xffff_ffff,
    ensures
        !ip::v4_text(address).contains(':'),
{
    let shown = ip::v4_text(address);
    lemma_octet(address / 0x100_0000);
    lemma_octet(address / 0x1_0000 % 0x100);
    lemma_octet(address / 0x100 % 0x100);
    lemma_octet(address % 0x100);
    if shown.contains(':') {
        let i = choose|i: int| 0 <= i < shown.len() && shown[i] == ':';
        let a = text::decimal(address / 0x100_0000);
        let b = text::decimal(address / 0x1_0000 % 0x100);
        let c = text::decimal(address / 0x100 % 0x100);
        let d = text::decimal(address % 0x100);
        let ab = a + seq!['.'] + b;
        let abc = ab + seq!['.'] + c;
        assert(shown =~= abc + seq!['.'] + d);
        if i < a.len() {
            assert(a[i] == ':');
        } else if a.len() < i < ab.len() {
            assert(b[i - a.len() - 1] == ':');
        } else if ab.len() < i < abc.len() {
            assert(c[i - ab.len() - 1] == ':');
        } else if i > abc.len() {
            assert(d[i - abc.len() - 1] == ':');
        }
    }
}

/// Every character stands in a field, or is a separator.
proof fn lemma_in_field(whole: Seq<char>, separator: char, i: int) -> (k: int)
    requires
        0 <= i < whole.len(),
        whole[i] != separator,
    ensures
        0 <= k < fields::fields(whole, separator).len(),
        fields::fields(whole, separator)[k].contains(whole[i]),
    decreases whole.len(),
{
    let stop = fields::find(whole, separator, 0);
    fields::lemma_find(whole, separator, 0);
    if stop >= whole.len() {
        assert(fields::fields(whole, separator)[0] == whole);
        assert(whole.contains(whole[i]));
        0
    } else if i < stop {
        assert(fields::fields(whole, separator)[0] == whole.take(stop));
        assert(whole.take(stop)[i] == whole[i]);
        0
    } else {
        let rest = whole.skip(stop + 1);
        assert(rest[i - stop - 1] == whole[i]);
        let k = lemma_in_field(rest, separator, i - stop - 1);
        assert(fields::fields(whole, separator)[k + 1] == fields::fields(rest, separator)[k]);
        k + 1
    }
}

/// What has a colon in it is no version four address.
pub proof fn lemma_colon_is_not_v4(whole: Seq<char>, i: int)
    requires
        0 <= i < whole.len(),
        whole[i] == ':',
    ensures
        ip::v4_of(whole) is None,
{
    let k = lemma_in_field(whole, '.', i);
    let parts = fields::fields(whole, '.');
    let j = choose|j: int| 0 <= j < parts[k].len() && parts[k][j] == ':';
    if ip::v4_of(whole) is Some {
        assert(number::all_digits(parts[k]));
        assert(chars::is_digit(parts[k][j]));
    }
}

/// A group is read as it was shown.
proof fn lemma_group(value: nat)
    requires
        value <= 0xffff,
    ensures
        ip::hex_of(ip::hex(value)) == Some(value),
        1 <= ip::hex(value).len() <= 4,
        value < 0x1000 ==> ip::hex(value).len() <= 3,
        value < 0x100 ==> ip::hex(value).len() <= 2,
        value < 0x10 ==> ip::hex(value).len() <= 1,
        forall|i: int|
            0 <= i < ip::hex(value).len() ==> ip::hex_value(#[trigger] ip::hex(value)[i]) is Some,
        !ip::hex(value).contains(':'),
    decreases value,
{
    let shown = ip::hex(value);
    if value < 16 {
        assert(shown.drop_last() =~= Seq::empty());
        assert(ip::hex_of(Seq::<char>::empty()) == Some(0nat));
        assert(ip::hex_value(shown.last()) == Some(value));
    } else {
        let front = ip::hex(value / 16);
        lemma_group(value / 16);
        assert(shown.drop_last() =~= front);
        assert(ip::hex_value(shown.last()) == Some(value % 16));
        assert forall|i: int| 0 <= i < shown.len() implies ip::hex_value(
            #[trigger] shown[i],
        ) is Some by {
            if i < front.len() {
                assert(shown[i] == front[i]);
            }
        }
    }
    if shown.contains(':') {
        let i = choose|i: int| 0 <= i < shown.len() && shown[i] == ':';
        assert(ip::hex_value(shown[i]) is Some);
    }
}

pub open spec fn are_groups(groups: Seq<nat>) -> bool {
    forall|i: int| 0 <= i < groups.len() ==> (#[trigger] groups[i]) <= 0xffff
}

/// No colon at either end, and no two together.
pub open spec fn is_tidy(shown: Seq<char>) -> bool {
    forall|i: int|
        0 <= i < shown.len() && #[trigger] shown[i] == ':' ==> 0 < i < shown.len() - 1 && shown[i
            + 1] != ':'
}

pub open spec fn hexes(groups: Seq<nat>) -> Seq<Seq<char>> {
    groups.map_values(|group: nat| ip::hex(group))
}

/// Groups between colons are fields.
proof fn lemma_joined(groups: Seq<nat>)
    requires
        are_groups(groups),
        groups.len() > 0,
    ensures
        fields::fields(ip::joined_groups(groups), ':') == hexes(groups),
        is_tidy(ip::joined_groups(groups)),
        ip::joined_groups(groups).len() > 0,
    decreases groups.len(),
{
    let shown = ip::joined_groups(groups);
    let last = groups.last();
    lemma_group(last);
    let part = ip::hex(last);
    if groups.len() == 1 {
        lemma_one_field(part, ':');
        assert(hexes(groups) =~= seq![part]);
        assert forall|i: int| 0 <= i < shown.len() implies #[trigger] shown[i] != ':' by {
            assert(part.contains(part[i]));
        }
    } else {
        let front = ip::joined_groups(groups.drop_last());
        lemma_joined(groups.drop_last());
        lemma_last_field(front, part, ':');
        assert(hexes(groups) =~= hexes(groups.drop_last()).push(part));
        assert forall|i: int| 0 <= i < shown.len() && #[trigger] shown[i] == ':' implies 0 < i
            < shown.len() - 1 && shown[i + 1] != ':' by {
            if i < front.len() {
                assert(front[i] == ':');
                assert(front[i + 1] != ':');
                assert(shown[i + 1] == front[i + 1]);
            } else if i == front.len() {
                assert(shown[i + 1] == part[0]);
                assert(part.contains(part[0]));
            } else {
                let j = i - front.len() - 1;
                assert(part[j] == ':');
                assert(part.contains(':'));
            }
        }
    }
}

/// Groups are read as they were shown.
proof fn lemma_groups_from(groups: Seq<nat>, embedded: bool)
    requires
        are_groups(groups),
    ensures
        ip::groups_from(hexes(groups), embedded) == Some(groups),
    decreases groups.len(),
{
    if groups.len() == 0 {
        assert(groups =~= Seq::empty());
    } else {
        lemma_groups_from(groups.drop_last(), false);
        lemma_group(groups.last());
        assert(hexes(groups).drop_last() =~= hexes(groups.drop_last()));
        assert(hexes(groups).last() == ip::hex(groups.last()));
        assert(groups.drop_last().push(groups.last()) =~= groups);
    }
}

proof fn lemma_groups_of(groups: Seq<nat>, embedded: bool)
    requires
        are_groups(groups),
    ensures
        ip::groups_of(ip::joined_groups(groups), embedded) == Some(groups),
{
    if groups.len() == 0 {
        assert(groups =~= Seq::empty());
    } else {
        lemma_joined(groups);
        lemma_groups_from(groups, embedded);
    }
}

proof fn lemma_gap(shown: Seq<char>, from: int, at: int)
    requires
        0 <= from <= at,
        at + 1 < shown.len() || at == shown.len(),
        forall|i: int| from <= i < at && i + 1 < shown.len() ==> !(#[trigger] shown[i] == ':'
            && shown[i + 1] == ':'),
        at < shown.len() ==> shown[at] == ':' && shown[at + 1] == ':',
    ensures
        ip::find_gap(shown, from) == at,
    decreases at - from,
{
    if from < at && from + 1 < shown.len() {
        lemma_gap(shown, from + 1, at);
    }
}

/// The runs of zeros hold zeros.
proof fn lemma_zeros(groups: Seq<nat>, n: nat)
    requires
        n <= groups.len(),
    ensures
        ({
            let zeros = ip::zeros_of(groups, n);
            &&& 0 <= zeros.start
            &&& 0 <= zeros.length
            &&& zeros.start + zeros.length <= n
            &&& 0 <= zeros.open_length
            &&& zeros.open_length > 0 ==> 0 <= zeros.open_start && zeros.open_start
                + zeros.open_length == n
            &&& forall|i: int|
                zeros.start <= i < zeros.start + zeros.length ==> #[trigger] groups[i] == 0
            &&& zeros.open_length > 0 ==> forall|i: int|
                zeros.open_start <= i < n ==> #[trigger] groups[i] == 0
        }),
    decreases n,
{
    if n > 0 {
        lemma_zeros(groups, (n - 1) as nat);
    }
}

/// The groups of a version four address after its mark.
proof fn lemma_marked(address: nat)
    requires
        address <= 0xffff_ffff,
    ensures
        ip::groups_of(seq!['f', 'f', 'f', 'f'] + seq![':'] + ip::v4_text(address), true) == Some(
            seq![0xffffnat, address / 0x1_0000, address % 0x1_0000],
        ),
{
    let f = seq!['f', 'f', 'f', 'f'];
    let shown = ip::v4_text(address);
    shown_v4_is_read_back(address);
    lemma_v4_long(address);
    lemma_v4_plain(address);
    assert(ip::hex(0xffff) == f) by {
        reveal_with_fuel(ip::hex, 5);
        assert(ip::hex(0xffff) =~= f);
    }
    lemma_group(0xffff);
    lemma_first_field(f, shown, ':');
    lemma_one_field(shown, ':');
    let parts = fields::fields(f + seq![':'] + shown, ':');
    assert(parts =~= seq![f, shown]);
    assert(parts.drop_last() =~= seq![f]);
    assert(seq![f].drop_last() =~= Seq::empty());
    assert(seq![f].last() == f);
    assert(ip::groups_from(seq![f].drop_last(), false) == Some(Seq::<nat>::empty()));
    assert(ip::groups_from(seq![f], false) == Some(Seq::<nat>::empty().push(0xffff)));
    assert(Seq::<nat>::empty().push(0xffff).push(address / 0x1_0000).push(address % 0x1_0000)
        =~= seq![0xffffnat, address / 0x1_0000, address % 0x1_0000]);
}

proof fn lemma_mapped(groups: Seq<nat>)
    requires
        groups.len() == 8,
        are_groups(groups),
        ip::is_mapped(groups),
    ensures
        ip::v6_groups(ip::v6_text(groups)) == Some(groups),
        ip::v4_of(ip::v6_text(groups)) is None,
{
    let shown = ip::v6_text(groups);
    let address = groups[6] * 0x1_0000 + groups[7];
    let tail = seq!['f', 'f', 'f', 'f'] + seq![':'] + ip::v4_text(address);
    reveal_strlit("::ffff:");
    assert(shown =~= seq![':', ':'] + tail);
    assert(shown[0] == ':' && shown[1] == ':');
    lemma_gap(shown, 0, 0);
    assert(shown.take(0) =~= Seq::empty());
    assert(shown.skip(2) =~= tail);
    lemma_marked(address);
    assert(address / 0x1_0000 == groups[6] && address % 0x1_0000 == groups[7]);
    assert(Seq::<nat>::empty() + ip::zero_groups(5) + seq![0xffffnat, groups[6], groups[7]]
        =~= groups);
    lemma_colon_is_not_v4(shown, 0);
}

proof fn lemma_shortened(groups: Seq<nat>)
    requires
        groups.len() == 8,
        are_groups(groups),
        !ip::is_mapped(groups),
        ip::zeros_of(groups, 8).length > 1,
    ensures
        ip::v6_groups(ip::v6_text(groups)) == Some(groups),
        ip::v4_of(ip::v6_text(groups)) is None,
{
    let shown = ip::v6_text(groups);
    let zeros = ip::zeros_of(groups, 8);
    lemma_zeros(groups, 8);
    reveal_strlit("::");
    let head = groups.take(zeros.start);
    let tail = groups.skip(zeros.start + zeros.length);
    let head_text = ip::joined_groups(head);
    let tail_text = ip::joined_groups(tail);
    let at = head_text.len() as int;
    lemma_groups_of(head, false);
    lemma_groups_of(tail, true);
    if head.len() > 0 {
        lemma_joined(head);
    }
    assert(shown =~= head_text + seq![':', ':'] + tail_text);
    assert(shown[at] == ':' && shown[at + 1] == ':');
    assert forall|i: int| 0 <= i < at && i + 1 < shown.len() implies !(#[trigger] shown[i] == ':'
        && shown[i + 1] == ':') by {
        assert(shown[i] == head_text[i]);
        if head_text[i] == ':' {
            assert(shown[i + 1] == head_text[i + 1]);
        }
    }
    lemma_gap(shown, 0, at);
    assert(shown.take(at) =~= head_text);
    assert(shown.skip(at + 2) =~= tail_text);
    assert(head + ip::zero_groups(8 - head.len() - tail.len()) + tail =~= groups);
    lemma_colon_is_not_v4(shown, at);
}

proof fn lemma_unshortened(groups: Seq<nat>)
    requires
        groups.len() == 8,
        are_groups(groups),
        !ip::is_mapped(groups),
        ip::zeros_of(groups, 8).length <= 1,
    ensures
        ip::v6_groups(ip::v6_text(groups)) == Some(groups),
        ip::v4_of(ip::v6_text(groups)) is None,
{
    let shown = ip::v6_text(groups);
    lemma_groups_of(groups, true);
    lemma_joined(groups);
    assert forall|i: int| 0 <= i < shown.len() && i + 1 < shown.len() implies !(#[trigger] shown[i]
        == ':' && shown[i + 1] == ':') by {
    }
    lemma_gap(shown, 0, shown.len() as int);
    let front = ip::joined_groups(groups.drop_last());
    assert(shown[front.len() as int] == ':');
    lemma_colon_is_not_v4(shown, front.len() as int);
}

/// A version six address is read as it was shown, and as no version four address.
pub proof fn shown_v6_is_read_back(groups: Seq<nat>)
    requires
        groups.len() == 8,
        are_groups(groups),
    ensures
        ip::v6_groups(ip::v6_text(groups)) == Some(groups),
        ip::v4_of(ip::v6_text(groups)) is None,
{
    if ip::is_mapped(groups) {
        lemma_mapped(groups);
    } else if ip::zeros_of(groups, 8).length > 1 {
        lemma_shortened(groups);
    } else {
        lemma_unshortened(groups);
    }
}

proof fn lemma_hex_letters(part: Seq<char>, i: int)
    requires
        ip::hex_of(part) is Some,
        0 <= i < part.len(),
    ensures
        ip::hex_value(part[i]) is Some,
    decreases part.len(),
{
    if i < part.len() - 1 {
        lemma_hex_letters(part.drop_last(), i);
        assert(part.drop_last()[i] == part[i]);
    }
}

proof fn lemma_part_read(parts: Seq<Seq<char>>, embedded: bool, k: int)
    requires
        ip::groups_from(parts, embedded) is Some,
        0 <= k < parts.len(),
    ensures
        ip::group_of(parts[k]) is Some || ip::v4_of(parts[k]) is Some,
    decreases parts.len(),
{
    if k < parts.len() - 1 {
        lemma_part_read(parts.drop_last(), false, k);
        assert(parts.drop_last()[k] == parts[k]);
    }
}

proof fn lemma_no_slash_in_v4(whole: Seq<char>, i: int)
    requires
        ip::v4_of(whole) is Some,
        0 <= i < whole.len(),
    ensures
        whole[i] != '/',
{
    if whole[i] == '/' {
        let k = lemma_in_field(whole, '.', i);
        let parts = fields::fields(whole, '.');
        let j = choose|j: int| 0 <= j < parts[k].len() && parts[k][j] == '/';
        assert(number::all_digits(parts[k]));
        assert(chars::is_digit(parts[k][j]));
    }
}

proof fn lemma_no_slash_in_groups(whole: Seq<char>, embedded: bool, i: int)
    requires
        ip::groups_of(whole, embedded) is Some,
        0 <= i < whole.len(),
    ensures
        whole[i] != '/',
{
    if whole[i] == '/' {
        let k = lemma_in_field(whole, ':', i);
        let parts = fields::fields(whole, ':');
        let j = choose|j: int| 0 <= j < parts[k].len() && parts[k][j] == '/';
        lemma_part_read(parts, embedded, k);
        if ip::v4_of(parts[k]) is Some {
            lemma_no_slash_in_v4(parts[k], j);
        } else {
            lemma_hex_letters(parts[k], j);
        }
    }
}

/// What is read as an address has no slash in it.
pub proof fn addresses_have_no_slash(whole: Seq<char>)
    requires
        ip::v4_of(whole) is Some || ip::v6_groups(whole) is Some,
    ensures
        !whole.contains('/'),
{
    if whole.contains('/') {
        let i = choose|i: int| 0 <= i < whole.len() && whole[i] == '/';
        if ip::v4_of(whole) is Some {
            lemma_no_slash_in_v4(whole, i);
        } else {
            let gap = ip::find_gap(whole, 0);
            lemma_gap_bounds(whole, 0);
            if gap >= whole.len() {
                lemma_no_slash_in_groups(whole, true, i);
            } else if i < gap {
                assert(whole.take(gap)[i] == '/');
                lemma_no_slash_in_groups(whole.take(gap), false, i);
            } else if i >= gap + 2 {
                assert(whole.skip(gap + 2)[i - gap - 2] == '/');
                lemma_no_slash_in_groups(whole.skip(gap + 2), true, i - gap - 2);
            }
        }
    }
}

proof fn lemma_gap_bounds(shown: Seq<char>, from: int)
    requires
        0 <= from <= shown.len(),
    ensures
        ({
            let gap = ip::find_gap(shown, from);
            gap == shown.len() || (from <= gap && gap + 1 < shown.len() && shown[gap] == ':'
                && shown[gap + 1] == ':')
        }),
    decreases shown.len() - from,
{
    if from + 1 < shown.len() {
        lemma_gap_bounds(shown, from + 1);
    }
}

} // verus!
