//! Addresses of the internet protocol, versions four and six, as text.

use vstd::prelude::*;
use crate::chars;
use crate::number;
use crate::number::{is_ascii_digit, read_numeral};
use crate::fields;
use crate::fields::{part_of, split};
use crate::text;
use crate::text::push_decimal;

verus! {

/// One of the four numbers of a version four address.
pub open spec fn octet_of(text: Seq<char>) -> Option<nat> {
    if 1 <= text.len() <= 3 && number::all_digits(text) && (text.len() == 1 || text[0] != '0')
        && number::numeral(text) <= 255 {
        Some(number::numeral(text))
    } else {
        None
    }
}

/// A version four address: four numbers between dots.
pub open spec fn v4_of(text: Seq<char>) -> Option<nat> {
    let parts = fields::fields(text, '.');
    if parts.len() == 4 && octet_of(parts[0]) is Some && octet_of(parts[1]) is Some && octet_of(
        parts[2],
    ) is Some && octet_of(parts[3]) is Some {
        Some(
            octet_of(parts[0])->0 * 0x100_0000 + octet_of(parts[1])->0 * 0x1_0000 + octet_of(
                parts[2],
            )->0 * 0x100 + octet_of(parts[3])->0,
        )
    } else {
        None
    }
}

fn is_all_digits(text: &Vec<char>) -> (result: bool)
    ensures
        result == number::all_digits(text@),
{
    let mut i: usize = 0;
    while i < text.len()
        invariant
            i <= text@.len(),
            forall|k: int| 0 <= k < i ==> chars::is_digit(#[trigger] text@[k]),
        decreases text@.len() - i,
    {
        if !is_ascii_digit(text[i]) {
            return false;
        }
        i = i + 1;
    }
    true
}

fn parse_octet(text: &Vec<char>) -> (value: Option<u32>)
    ensures
        match value {
            Some(value) => octet_of(text@) == Some(value as nat) && value <= 255,
            None => octet_of(text@) is None,
        },
{
    if text.len() < 1 || text.len() > 3 || !is_all_digits(text) || (text.len() > 1 && text[0]
        == '0') {
        return None;
    }
    assert(text@.subrange(0, text@.len() as int) =~= text@);
    match read_numeral(text, 0, text.len(), 255) {
        Some(value) => Some(value as u32),
        None => None,
    }
}

/// Reads a version four address.
pub fn parse_v4(text: &Vec<char>) -> (address: Option<u32>)
    ensures
        match address {
            Some(address) => v4_of(text@) == Some(address as nat),
            None => v4_of(text@) is None,
        },
{
    let parts = split(text, '.');
    let ghost shown = fields::views(parts@);
    if parts.len() != 4 {
        return None;
    }
    assert(shown[0] == parts@[0]@ && shown[1] == parts@[1]@ && shown[2] == parts@[2]@ && shown[3]
        == parts@[3]@);
    match (
        parse_octet(&parts[0]),
        parse_octet(&parts[1]),
        parse_octet(&parts[2]),
        parse_octet(&parts[3]),
    ) {
        (Some(a), Some(b), Some(c), Some(d)) => Some(
            a * 0x100_0000 + b * 0x1_0000 + c * 0x100 + d,
        ),
        _ => None,
    }
}

/// The value of a hexadecimal digit.
pub open spec fn hex_value(c: char) -> Option<nat> {
    if '0' <= c && c <= '9' {
        Some((c as int - '0' as int) as nat)
    } else if 'a' <= c && c <= 'f' {
        Some((c as int - 'a' as int + 10) as nat)
    } else if 'A' <= c && c <= 'F' {
        Some((c as int - 'A' as int + 10) as nat)
    } else {
        None
    }
}

fn hex_digit(c: char) -> (value: Option<u16>)
    ensures
        match value {
            Some(value) => hex_value(c) == Some(value as nat) && value < 16,
            None => hex_value(c) is None,
        },
{
    if '0' <= c && c <= '9' {
        Some((c as u32 - '0' as u32) as u16)
    } else if 'a' <= c && c <= 'f' {
        Some((c as u32 - 'a' as u32 + 10) as u16)
    } else if 'A' <= c && c <= 'F' {
        Some((c as u32 - 'A' as u32 + 10) as u16)
    } else {
        None
    }
}

/// The number that hexadecimal digits stand for.
pub open spec fn hex_of(text: Seq<char>) -> Option<nat>
    decreases text.len(),
{
    if text.len() == 0 {
        Some(0)
    } else {
        match (hex_of(text.drop_last()), hex_value(text.last())) {
            (Some(front), Some(digit)) => Some(front * 16 + digit),
            _ => None,
        }
    }
}

/// A group of a version six address: up to four hexadecimal digits.
pub open spec fn group_of(text: Seq<char>) -> Option<nat> {
    if 1 <= text.len() <= 4 {
        hex_of(text)
    } else {
        None
    }
}

proof fn lemma_hex_fails(text: Seq<char>, n: int)
    requires
        0 <= n <= text.len(),
        hex_of(text.take(n)) is None,
    ensures
        hex_of(text) is None,
    decreases text.len() - n,
{
    if n < text.len() {
        assert(text.take(n + 1).drop_last() =~= text.take(n));
        lemma_hex_fails(text, n + 1);
    } else {
        assert(text.take(n) =~= text);
    }
}

fn parse_group(text: &Vec<char>) -> (value: Option<u16>)
    ensures
        match value {
            Some(value) => group_of(text@) == Some(value as nat),
            None => group_of(text@) is None,
        },
{
    if text.len() < 1 || text.len() > 4 {
        return None;
    }
    let mut value: u32 = 0;
    let mut bound: Ghost<int> = Ghost(1);
    let mut i: usize = 0;
    assert(text@.take(0) =~= Seq::empty());
    while i < text.len()
        invariant
            i <= text@.len() <= 4,
            hex_of(text@.take(i as int)) == Some(value as nat),
            value < bound@,
            i == 0 ==> bound@ == 1,
            i == 1 ==> bound@ == 16,
            i == 2 ==> bound@ == 256,
            i == 3 ==> bound@ == 4096,
            i == 4 ==> bound@ == 65536,
        decreases text@.len() - i,
    {
        assert(text@.take(i + 1).drop_last() =~= text@.take(i as int));
        match hex_digit(text[i]) {
            Some(digit) => {
                value = value * 16 + digit as u32;
            },
            None => {
                proof {
                    assert(hex_of(text@.take(i + 1)) is None);
                    lemma_hex_fails(text@, i + 1);
                }
                return None;
            },
        }
        proof {
            bound@ = bound@ * 16;
        }
        i = i + 1;
    }
    assert(text@.take(text@.len() as int) =~= text@);
    Some(value as u16)
}

/// The groups of a list of fields, the last of which may be a version four
/// address in place of two groups.
pub open spec fn groups_from(parts: Seq<Seq<char>>, embedded: bool) -> Option<Seq<nat>>
    decreases parts.len(),
{
    if parts.len() == 0 {
        Some(Seq::empty())
    } else {
        let last = parts.last();
        match groups_from(parts.drop_last(), false) {
            None => None,
            Some(front) => match group_of(last) {
                Some(group) => Some(front.push(group)),
                None => match v4_of(last) {
                    Some(address) => if embedded {
                        Some(front.push(address / 0x1_0000).push(address % 0x1_0000))
                    } else {
                        None
                    },
                    None => None,
                },
            },
        }
    }
}

/// The groups of a stretch of an address without a double colon.
pub open spec fn groups_of(text: Seq<char>, embedded: bool) -> Option<Seq<nat>> {
    if text.len() == 0 {
        Some(Seq::empty())
    } else {
        groups_from(fields::fields(text, ':'), embedded)
    }
}

/// The first double colon at or after a place, or the end.
pub open spec fn find_gap(text: Seq<char>, from: int) -> int
    decreases text.len() - from,
{
    if from < 0 || from + 1 >= text.len() {
        text.len() as int
    } else if text[from] == ':' && text[from + 1] == ':' {
        from
    } else {
        find_gap(text, from + 1)
    }
}

pub open spec fn zero_groups(n: int) -> Seq<nat> {
    Seq::new(n as nat, |i: int| 0nat)
}

/// The eight groups of a version six address. A double colon stands for one zero
/// group or more.
pub open spec fn v6_groups(text: Seq<char>) -> Option<Seq<nat>> {
    let gap = find_gap(text, 0);
    if gap < text.len() {
        match (groups_of(text.take(gap), false), groups_of(text.skip(gap + 2), true)) {
            (Some(head), Some(tail)) => if head.len() + tail.len() <= 7 {
                Some(head + zero_groups(8 - head.len() - tail.len()) + tail)
            } else {
                None
            },
            _ => None,
        }
    } else {
        match groups_of(text, true) {
            Some(groups) => if groups.len() == 8 {
                Some(groups)
            } else {
                None
            },
            None => None,
        }
    }
}

pub open spec fn group_views(groups: Seq<u16>) -> Seq<nat> {
    groups.map_values(|group: u16| group as nat)
}

proof fn lemma_groups_fail(parts: Seq<Seq<char>>, n: int, embedded: bool)
    requires
        0 <= n < parts.len(),
        groups_from(parts.take(n), false) is Some,
        group_of(parts[n]) is None,
        !(n == parts.len() - 1 && embedded && v4_of(parts[n]) is Some),
    ensures
        groups_from(parts, embedded) is None,
    decreases parts.len() - n,
{
    assert(parts.take(n + 1).drop_last() =~= parts.take(n));
    assert(groups_from(parts.take(n + 1), false) is None);
    if n == parts.len() - 1 {
        assert(parts.drop_last() =~= parts.take(n));
    } else {
        lemma_groups_stuck(parts, n + 1, embedded);
    }
}

proof fn lemma_groups_stuck(parts: Seq<Seq<char>>, n: int, embedded: bool)
    requires
        0 <= n < parts.len(),
        groups_from(parts.take(n), false) is None,
    ensures
        groups_from(parts, embedded) is None,
    decreases parts.len() - n,
{
    if n == parts.len() - 1 {
        assert(parts.drop_last() =~= parts.take(n));
    } else {
        assert(parts.take(n + 1).drop_last() =~= parts.take(n));
        lemma_groups_stuck(parts, n + 1, embedded);
    }
}

fn parse_groups(text: &Vec<char>, embedded: bool) -> (groups: Option<Vec<u16>>)
    ensures
        match groups {
            Some(groups) => groups_of(text@, embedded) == Some(group_views(groups@)),
            None => groups_of(text@, embedded) is None,
        },
{
    let mut groups: Vec<u16> = Vec::new();
    if text.len() == 0 {
        assert(group_views(groups@) =~= Seq::empty());
        return Some(groups);
    }
    let parts = split(text, ':');
    let ghost shown = fields::views(parts@);
    let mut i: usize = 0;
    assert(shown.take(0) =~= Seq::empty());
    assert(group_views(groups@) =~= Seq::empty());
    while i < parts.len()
        invariant
            i <= parts@.len() == shown.len(),
            shown == fields::views(parts@),
            text@.len() > 0,
            shown == fields::fields(text@, ':'),
            groups_from(shown.take(i as int), false) == Some(group_views(groups@)),
        decreases parts@.len() - i,
    {
        let ghost before = groups@;
        proof {
            assert(shown[i as int] == parts@[i as int]@);
            assert(shown.take(i + 1).drop_last() =~= shown.take(i as int));
        }
        match parse_group(&parts[i]) {
            Some(group) => {
                groups.push(group);
                assert(group_views(groups@) =~= group_views(before).push(group as nat));
            },
            None => {
                if embedded && i == parts.len() - 1 {
                    if let Some(address) = parse_v4(&parts[i]) {
                        groups.push((address / 0x1_0000) as u16);
                        groups.push((address % 0x1_0000) as u16);
                        proof {
                            assert(group_views(groups@) =~= group_views(before).push(
                                (address / 0x1_0000) as nat,
                            ).push((address % 0x1_0000) as nat));
                            assert(shown.drop_last() =~= shown.take(i as int));
                        }
                        return Some(groups);
                    }
                }
                proof {
                    lemma_groups_fail(shown, i as int, embedded);
                }
                return None;
            },
        }
        i = i + 1;
    }
    proof {
        assert(shown.take(shown.len() as int) =~= shown);
        lemma_plain_groups(shown, embedded);
    }
    Some(groups)
}

proof fn lemma_plain_groups(parts: Seq<Seq<char>>, embedded: bool)
    requires
        groups_from(parts, false) is Some,
    ensures
        groups_from(parts, embedded) == groups_from(parts, false),
{
}

fn gap_of(text: &Vec<char>) -> (gap: usize)
    ensures
        gap == find_gap(text@, 0),
        gap <= text@.len(),
        gap < text@.len() ==> gap + 2 <= text@.len(),
{
    let count: usize = text.len();
    let mut i: usize = 0;
    while i < count && count - i > 1
        invariant
            i <= count == text@.len(),
            find_gap(text@, 0) == find_gap(text@, i as int),
        decreases count - i,
    {
        if text[i] == ':' && text[i + 1] == ':' {
            return i;
        }
        i = i + 1;
    }
    count
}

/// Reads the eight groups of a version six address.
pub fn parse_v6(text: &Vec<char>) -> (groups: Option<Vec<u16>>)
    ensures
        match groups {
            Some(groups) => v6_groups(text@) == Some(group_views(groups@)) && groups@.len() == 8,
            None => v6_groups(text@) is None,
        },
{
    let gap = gap_of(text);
    if gap == text.len() {
        return match parse_groups(text, true) {
            Some(groups) => {
                assert(group_views(groups@).len() == groups@.len());
                if groups.len() == 8 {
                    Some(groups)
                } else {
                    None
                }
            },
            None => None,
        };
    }
    let front = part_of(text, 0, gap);
    let back = part_of(text, gap + 2, text.len());
    proof {
        assert(front@ =~= text@.take(gap as int));
        assert(back@ =~= text@.skip(gap + 2));
    }
    let head = match parse_groups(&front, false) {
        Some(head) => head,
        None => {
            return None;
        },
    };
    let tail = match parse_groups(&back, true) {
        Some(tail) => tail,
        None => {
            return None;
        },
    };
    proof {
        assert(group_views(head@).len() == head@.len());
        assert(group_views(tail@).len() == tail@.len());
    }
    if head.len() > 7 || tail.len() > 7 || head.len() + tail.len() > 7 {
        return None;
    }
    let zeros: usize = 8 - head.len() - tail.len();
    let ghost given = head@;
    let mut groups = head;
    let mut i: usize = 0;
    while i < zeros
        invariant
            i <= zeros,
            group_views(groups@) =~= group_views(given) + zero_groups(i as int),
        decreases zeros - i,
    {
        let ghost before = groups@;
        groups.push(0);
        assert(group_views(groups@) =~= group_views(before).push(0));
        i = i + 1;
    }
    let ghost filled = groups@;
    let mut k: usize = 0;
    while k < tail.len()
        invariant
            k <= tail@.len(),
            group_views(groups@) =~= group_views(filled) + group_views(tail@).take(k as int),
        decreases tail@.len() - k,
    {
        let ghost before = groups@;
        groups.push(tail[k]);
        proof {
            assert(group_views(groups@) =~= group_views(before).push(tail@[k as int] as nat));
            assert(group_views(tail@)[k as int] == tail@[k as int]);
        }
        k = k + 1;
    }
    proof {
        assert(group_views(tail@).take(tail@.len() as int) =~= group_views(tail@));
        assert(group_views(groups@).len() == groups@.len());
    }
    Some(groups)
}

/// The hexadecimal numeral of a number, without leading zeros.
pub open spec fn hex(value: nat) -> Seq<char>
    decreases value,
{
    if value < 16 {
        seq![hex_char(value)]
    } else {
        hex(value / 16).push(hex_char(value % 16))
    }
}

pub open spec fn hex_char(value: nat) -> char {
    if value < 10 {
        text::digit(value)
    } else if value == 10 {
        'a'
    } else if value == 11 {
        'b'
    } else if value == 12 {
        'c'
    } else if value == 13 {
        'd'
    } else if value == 14 {
        'e'
    } else {
        'f'
    }
}

pub fn hex_char_of(value: u32) -> (c: char)
    requires
        value < 16,
    ensures
        c == hex_char(value as nat),
{
    match value {
        0 => '0',
        1 => '1',
        2 => '2',
        3 => '3',
        4 => '4',
        5 => '5',
        6 => '6',
        7 => '7',
        8 => '8',
        9 => '9',
        10 => 'a',
        11 => 'b',
        12 => 'c',
        13 => 'd',
        14 => 'e',
        _ => 'f',
    }
}

/// Appends the hexadecimal numeral of a number.
pub fn push_hex(out: &mut String, value: u32)
    ensures
        final(out)@ == old(out)@ + hex(value as nat),
    decreases value,
{
    if value >= 16 {
        push_hex(out, value / 16);
    }
    let ghost before = out@;
    out.push(hex_char_of(value % 16));
    proof {
        assert(out@ =~= old(out)@ + hex(value as nat));
    }
}

/// A version four address as text.
pub open spec fn v4_text(address: nat) -> Seq<char> {
    text::decimal(address / 0x100_0000) + seq!['.'] + text::decimal(address / 0x1_0000 % 0x100)
        + seq!['.'] + text::decimal(address / 0x100 % 0x100) + seq!['.'] + text::decimal(
        address % 0x100,
    )
}

/// Appends a version four address.
pub fn push_v4(out: &mut String, address: u32)
    ensures
        final(out)@ == old(out)@ + v4_text(address as nat),
{
    push_decimal(out, (address / 0x100_0000) as u64);
    out.push('.');
    push_decimal(out, (address / 0x1_0000 % 0x100) as u64);
    out.push('.');
    push_decimal(out, (address / 0x100 % 0x100) as u64);
    out.push('.');
    push_decimal(out, (address % 0x100) as u64);
    assert(out@ =~= old(out)@ + v4_text(address as nat));
}

/// Runs of zero groups: the first of the longest, and the one that is open.
pub struct Zeros {
    pub start: int,
    pub length: int,
    pub open_start: int,
    pub open_length: int,
}

/// The runs of zeros among the first `n` groups.
pub open spec fn zeros_of(groups: Seq<nat>, n: nat) -> Zeros
    decreases n,
{
    if n == 0 {
        Zeros { start: 0, length: 0, open_start: 0, open_length: 0 }
    } else {
        let before = zeros_of(groups, (n - 1) as nat);
        if groups[n - 1] != 0 {
            Zeros { open_start: 0, open_length: 0, ..before }
        } else {
            let open_start = if before.open_length == 0 {
                n - 1
            } else {
                before.open_start
            };
            let open_length = before.open_length + 1;
            if open_length > before.length {
                Zeros { start: open_start, length: open_length, open_start, open_length }
            } else {
                Zeros { open_start, open_length, ..before }
            }
        }
    }
}

/// Groups between colons.
pub open spec fn joined_groups(groups: Seq<nat>) -> Seq<char>
    decreases groups.len(),
{
    if groups.len() == 0 {
        Seq::empty()
    } else if groups.len() == 1 {
        hex(groups[0])
    } else {
        joined_groups(groups.drop_last()) + seq![':'] + hex(groups.last())
    }
}

/// A version four address within a version six one.
pub open spec fn is_mapped(groups: Seq<nat>) -> bool {
    groups[0] == 0 && groups[1] == 0 && groups[2] == 0 && groups[3] == 0 && groups[4] == 0
        && groups[5] == 0xffff
}

/// A version six address as text: the longest run of two zero groups or more is
/// left out.
pub open spec fn v6_text(groups: Seq<nat>) -> Seq<char> {
    let zeros = zeros_of(groups, 8);
    if is_mapped(groups) {
        "::ffff:"@ + v4_text(groups[6] * 0x1_0000 + groups[7])
    } else if zeros.length > 1 {
        joined_groups(groups.take(zeros.start)) + "::"@ + joined_groups(
            groups.skip(zeros.start + zeros.length),
        )
    } else {
        joined_groups(groups)
    }
}

fn push_groups(out: &mut String, groups: &Vec<u16>, from: usize, to: usize)
    requires
        from <= to <= groups@.len(),
    ensures
        final(out)@ == old(out)@ + joined_groups(
            group_views(groups@).subrange(from as int, to as int),
        ),
{
    let ghost shown = group_views(groups@);
    let mut i: usize = from;
    assert(shown.subrange(from as int, from as int) =~= Seq::empty());
    assert(out@ =~= old(out)@ + joined_groups(shown.subrange(from as int, from as int)));
    while i < to
        invariant
            from <= i <= to <= groups@.len(),
            shown == group_views(groups@),
            out@ == old(out)@ + joined_groups(shown.subrange(from as int, i as int)),
        decreases to - i,
    {
        let ghost done = shown.subrange(from as int, i as int);
        let ghost more = shown.subrange(from as int, i + 1);
        if i > from {
            out.push(':');
        }
        push_hex(out, groups[i] as u32);
        proof {
            assert(more.drop_last() =~= done);
            assert(more.last() == groups@[i as int]);
            assert(out@ =~= old(out)@ + joined_groups(more));
        }
        i = i + 1;
    }
}

fn longest_zeros(groups: &Vec<u16>) -> (run: (usize, usize))
    requires
        groups@.len() == 8,
    ensures
        run.0 == zeros_of(group_views(groups@), 8).start,
        run.1 == zeros_of(group_views(groups@), 8).length,
        run.0 + run.1 <= 8,
{
    let ghost shown = group_views(groups@);
    let mut start: usize = 0;
    let mut length: usize = 0;
    let mut open_start: usize = 0;
    let mut open_length: usize = 0;
    let mut i: usize = 0;
    while i < 8
        invariant
            i <= 8 == groups@.len(),
            shown == group_views(groups@),
            zeros_of(shown, i as nat) == (Zeros {
                start: start as int,
                length: length as int,
                open_start: open_start as int,
                open_length: open_length as int,
            }),
            start + length <= i,
            open_length > 0 ==> open_start + open_length == i,
            open_length <= i,
        decreases 8 - i,
    {
        assert(shown[i as int] == groups@[i as int]);
        if groups[i] == 0 {
            if open_length == 0 {
                open_start = i;
            }
            open_length = open_length + 1;
            if open_length > length {
                start = open_start;
                length = open_length;
            }
        } else {
            open_start = 0;
            open_length = 0;
        }
        i = i + 1;
    }
    (start, length)
}

/// Appends a version six address.
pub fn push_v6(out: &mut String, groups: &Vec<u16>)
    requires
        groups@.len() == 8,
    ensures
        final(out)@ == old(out)@ + v6_text(group_views(groups@)),
{
    let ghost shown = group_views(groups@);
    if groups[0] == 0 && groups[1] == 0 && groups[2] == 0 && groups[3] == 0 && groups[4] == 0
        && groups[5] == 0xffff {
        out.append("::ffff:");
        push_v4(out, groups[6] as u32 * 0x1_0000 + groups[7] as u32);
        assert(out@ =~= old(out)@ + v6_text(shown));
        return;
    }
    let (start, length) = longest_zeros(groups);
    if length > 1 {
        push_groups(out, groups, 0, start);
        out.append("::");
        push_groups(out, groups, start + length, 8);
        proof {
            assert(shown.subrange(0, start as int) =~= shown.take(start as int));
            assert(shown.subrange(start + length, 8) =~= shown.skip(start + length));
            assert(out@ =~= old(out)@ + v6_text(shown));
        }
    } else {
        push_groups(out, groups, 0, 8);
        assert(shown.subrange(0, 8) =~= shown);
    }
}

} // verus!
