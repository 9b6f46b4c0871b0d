//! Fields of records: text, times to live, names and octets.

use vstd::prelude::*;
use vstd::utf8;
use crate::number;
use crate::number::{read_numeral, skip_digits};
use crate::dns::problem;
use crate::dns::problem::{GateError, Problem};
use crate::dns::token;
use crate::dns::token::{is_byte_digit, Piece, Token};
use crate::text;
use crate::text::push_padded;

verus! {

pub open spec fn is_ascii(raw: Seq<u8>) -> bool {
    forall|i: int| 0 <= i < raw.len() ==> (#[trigger] raw[i]) < 0x80
}

/// The characters of ASCII bytes.
pub open spec fn letters(raw: Seq<u8>) -> Seq<char> {
    raw.map_values(|byte: u8| byte as char)
}

pub open spec fn text_of(path: Seq<char>, piece: Piece) -> Result<Seq<char>, Problem> {
    if is_ascii(piece.raw) {
        Ok(letters(piece.raw))
    } else {
        Err(
            problem::problem(
                "E_RAW_NON_ASCII"@,
                path,
                piece.offset as int,
                "token is not ASCII"@,
            ),
        )
    }
}

/// The characters of a token.
pub fn ascii(token: &Token, path: &str) -> (result: Result<Vec<char>, GateError>)
    ensures
        match result {
            Ok(chars) => text_of(path@, token@) == Ok::<Seq<char>, Problem>(chars@),
            Err(error) => text_of(path@, token@) == Err::<Seq<char>, Problem>(error@),
        },
{
    let mut chars: Vec<char> = Vec::new();
    let mut i: usize = 0;
    while i < token.raw.len()
        invariant
            i <= token.raw@.len(),
            chars@ == letters(token.raw@.take(i as int)),
            forall|k: int| 0 <= k < i ==> (#[trigger] token.raw@[k]) < 0x80,
        decreases token.raw@.len() - i,
    {
        let byte = token.raw[i];
        if byte >= 0x80 {
            return Err(
                GateError::new(
                    "E_RAW_NON_ASCII",
                    path,
                    token.offset as u64,
                    "token is not ASCII",
                ),
            );
        }
        chars.push(byte as char);
        assert(letters(token.raw@.take(i + 1)) =~= letters(token.raw@.take(i as int)).push(
            byte as char,
        ));
        i = i + 1;
    }
    assert(token.raw@.take(token.raw@.len() as int) =~= token.raw@);
    Ok(chars)
}

/// The seconds that a unit stands for.
pub open spec fn unit_seconds(unit: char) -> Option<nat> {
    if unit == 'w' || unit == 'W' {
        Some(604_800)
    } else if unit == 'd' || unit == 'D' {
        Some(86_400)
    } else if unit == 'h' || unit == 'H' {
        Some(3_600)
    } else if unit == 'm' || unit == 'M' {
        Some(60)
    } else if unit == 's' || unit == 'S' {
        Some(1)
    } else {
        None
    }
}

/// The sum of the amounts of time from a place on, or what is wrong with them.
pub open spec fn seconds_from(text: Seq<char>, index: int, total: nat) -> Result<nat, Seq<char>>
    decreases text.len() - index,
{
    let stop = number::digits_end(text, index);
    if index >= text.len() {
        Ok(total)
    } else if stop <= index {
        Err("invalid TTL"@)
    } else {
        let amount = number::numeral(text.subrange(index, stop));
        if amount > u64::MAX {
            Err("TTL number overflow"@)
        } else if stop >= text.len() {
            if total + amount > u64::MAX {
                Err("TTL overflow"@)
            } else {
                Ok(total + amount)
            }
        } else {
            match unit_seconds(text[stop]) {
                None => Err("invalid TTL unit"@),
                Some(seconds) => if total + amount * seconds > u64::MAX {
                    Err("TTL overflow"@)
                } else {
                    seconds_from(text, stop + 1, total + amount * seconds)
                },
            }
        }
    }
}

/// The time to live that a token stands for.
pub open spec fn ttl_of(path: Seq<char>, piece: Piece) -> Result<u32, Problem> {
    match text_of(path, piece) {
        Err(error) => Err(error),
        Ok(text) => {
            let wrong = |detail: Seq<char>|
                Err::<u32, Problem>(
                    problem::problem("E_TTL"@, path, piece.offset as int, detail),
                );
            if text.len() == 0 {
                wrong("empty TTL"@)
            } else {
                match seconds_from(text, 0, 0) {
                    Err(detail) => wrong(detail),
                    Ok(total) => if total > u32::MAX {
                        wrong("TTL exceeds u32"@)
                    } else {
                        Ok(total as u32)
                    },
                }
            }
        },
    }
}

fn unit_of(unit: char) -> (seconds: Option<u64>)
    ensures
        match seconds {
            Some(seconds) => unit_seconds(unit) == Some(seconds as nat) && seconds <= 604_800,
            None => unit_seconds(unit) is None,
        },
{
    if unit == 'w' || unit == 'W' {
        Some(604_800)
    } else if unit == 'd' || unit == 'D' {
        Some(86_400)
    } else if unit == 'h' || unit == 'H' {
        Some(3_600)
    } else if unit == 'm' || unit == 'M' {
        Some(60)
    } else if unit == 's' || unit == 'S' {
        Some(1)
    } else {
        None
    }
}

fn sum_seconds(text: &Vec<char>) -> (result: Result<u64, &'static str>)
    ensures
        match result {
            Ok(total) => seconds_from(text@, 0, 0) == Ok::<nat, Seq<char>>(total as nat),
            Err(detail) => seconds_from(text@, 0, 0) == Err::<nat, Seq<char>>(detail@),
        },
{
    let mut index: usize = 0;
    let mut total: u64 = 0;
    while index < text.len()
        invariant
            index <= text@.len(),
            seconds_from(text@, 0, 0) == seconds_from(text@, index as int, total as nat),
        decreases text@.len() - index,
    {
        let stop = skip_digits(text, index);
        if stop == index {
            return Err("invalid TTL");
        }
        let amount = match read_numeral(text, index, stop, u64::MAX) {
            Some(amount) => amount,
            None => {
                return Err("TTL number overflow");
            },
        };
        let seconds: u64 = if stop == text.len() {
            1
        } else {
            match unit_of(text[stop]) {
                Some(seconds) => seconds,
                None => {
                    return Err("invalid TTL unit");
                },
            }
        };
        assert(amount * seconds <= u64::MAX * 604_800) by (nonlinear_arith)
            requires
                amount <= u64::MAX,
                seconds <= 604_800,
        ;
        let wide: u128 = total as u128 + amount as u128 * seconds as u128;
        if wide > u64::MAX as u128 {
            return Err("TTL overflow");
        }
        total = wide as u64;
        index = if stop == text.len() {
            stop
        } else {
            stop + 1
        };
    }
    Ok(total)
}

/// Reads a time to live.
pub fn parse_ttl(token: &Token, path: &str) -> (result: Result<u32, GateError>)
    ensures
        problem::told(ttl_of(path@, token@), result),
{
    let text = match ascii(token, path) {
        Ok(text) => text,
        Err(error) => {
            return Err(error);
        },
    };
    if text.len() == 0 {
        return Err(GateError::new("E_TTL", path, token.offset as u64, "empty TTL"));
    }
    match sum_seconds(&text) {
        Err(detail) => Err(GateError::new("E_TTL", path, token.offset as u64, detail)),
        Ok(total) => if total > u32::MAX as u64 {
            Err(GateError::new("E_TTL", path, token.offset as u64, "TTL exceeds u32"))
        } else {
            Ok(total as u32)
        },
    }
}

/// A place in a token, counted from the beginning of its file.
pub open spec fn place(offset: usize, index: int) -> int {
    if offset + index <= usize::MAX {
        offset + index
    } else {
        usize::MAX as int
    }
}

fn place_of(offset: usize, index: usize) -> (at: u64)
    ensures
        at == place(offset, index as int),
{
    match offset.checked_add(index) {
        Some(at) => at as u64,
        None => usize::MAX as u64,
    }
}

/// The byte that an escape stands for, or what is wrong with the escape.
pub open spec fn escaped(raw: Seq<u8>, index: int) -> Result<u8, Seq<char>> {
    if index + 1 >= raw.len() {
        Err("trailing escape"@)
    } else if token::escape_length(raw, index) == 4 {
        let value = (raw[index + 1] - 0x30) * 100 + (raw[index + 2] - 0x30) * 10 + (raw[index + 3]
            - 0x30);
        if value > 255 {
            Err("decimal escape exceeds 255"@)
        } else {
            Ok(value as u8)
        }
    } else {
        Ok(raw[index + 1])
    }
}

pub open spec fn escape_problem(
    path: Seq<char>,
    offset: usize,
    index: int,
    detail: Seq<char>,
) -> Problem {
    problem::problem("E_ESCAPE"@, path, place(offset, index), detail)
}

fn decode_one_escape(raw: &Vec<u8>, index: usize, path: &str, token_offset: usize) -> (result:
    Result<(u8, usize), GateError>)
    requires
        index < raw@.len(),
    ensures
        match result {
            Ok((byte, consumed)) => escaped(raw@, index as int) == Ok::<u8, Seq<char>>(byte)
                && consumed == token::escape_length(raw@, index as int) && index + consumed
                <= raw@.len(),
            Err(error) => escaped(raw@, index as int) is Err && error@ == escape_problem(
                path@,
                token_offset,
                index as int,
                escaped(raw@, index as int)->Err_0,
            ),
        },
{
    let count: usize = raw.len();
    if count - index <= 1 {
        return Err(
            GateError::new("E_ESCAPE", path, place_of(token_offset, index), "trailing escape"),
        );
    }
    if count - index > 3 && is_byte_digit(raw[index + 1]) && is_byte_digit(raw[index + 2])
        && is_byte_digit(raw[index + 3]) {
        let value: u16 = (raw[index + 1] - 0x30) as u16 * 100 + (raw[index + 2] - 0x30) as u16 * 10
            + (raw[index + 3] - 0x30) as u16;
        if value > 255 {
            return Err(
                GateError::new(
                    "E_ESCAPE",
                    path,
                    place_of(token_offset, index),
                    "decimal escape exceeds 255",
                ),
            );
        }
        Ok((value as u8, 4))
    } else {
        Ok((raw[index + 1], 2))
    }
}

/// A byte with capitals made small.
pub open spec fn lower(byte: u8) -> u8 {
    if 0x41 <= byte <= 0x5a {
        (byte + 0x20) as u8
    } else {
        byte
    }
}

pub fn to_lower(byte: u8) -> (result: u8)
    ensures
        result == lower(byte),
{
    if 0x41 <= byte && byte <= 0x5a {
        byte + 0x20
    } else {
        byte
    }
}

/// The labels of a name.
#[verifier::ext_equal]
pub struct Labels {
    pub labels: Seq<Seq<u8>>,
    pub absolute: bool,
}

/// The labels with one byte more in the last of them.
pub open spec fn longer(labels: Seq<Seq<u8>>, byte: u8) -> Seq<Seq<u8>> {
    labels.update(labels.len() - 1, labels.last().push(byte))
}

/// The labels of a name from a place on.
pub open spec fn labels_from(
    path: Seq<char>,
    piece: Piece,
    index: int,
    labels: Seq<Seq<u8>>,
) -> Result<Labels, Problem>
    decreases piece.raw.len() - index,
{
    let raw = piece.raw;
    if index >= raw.len() {
        Ok(Labels { labels, absolute: false })
    } else if raw[index] == 0x2e {
        if labels.last().len() == 0 {
            Err(problem::problem("E_NAME"@, path, place(piece.offset, index), "empty label"@))
        } else if index + 1 == raw.len() {
            Ok(Labels { labels, absolute: true })
        } else {
            labels_from(path, piece, index + 1, labels.push(Seq::empty()))
        }
    } else if raw[index] == 0x5c {
        match escaped(raw, index) {
            Err(detail) => Err(escape_problem(path, piece.offset, index, detail)),
            Ok(byte) => labels_from(
                path,
                piece,
                index + token::escape_length(raw, index),
                longer(labels, byte),
            ),
        }
    } else {
        labels_from(path, piece, index + 1, longer(labels, lower(raw[index])))
    }
}

pub open spec fn labels_of(path: Seq<char>, piece: Piece) -> Result<Labels, Problem> {
    labels_from(path, piece, 0, seq![Seq::empty()])
}

/// The bytes that labels take up on the wire.
pub open spec fn labels_length(labels: Seq<Seq<u8>>) -> nat
    decreases labels.len(),
{
    if labels.len() == 0 {
        0
    } else {
        labels_length(labels.drop_last()) + labels.last().len() + 1
    }
}

/// The bytes that a rendered name takes up on the wire, from a place on.
pub open spec fn wire_from(body: Seq<u8>, index: int, octets: nat, total: nat) -> Option<nat>
    decreases body.len() - index,
{
    if index >= body.len() {
        if octets == 0 {
            None
        } else {
            Some(total + octets + 1)
        }
    } else if body[index] == 0x2e {
        if octets == 0 {
            None
        } else {
            wire_from(body, index + 1, 0, total + octets + 1)
        }
    } else if body[index] == 0x5c {
        if token::escape_length(body, index) == 4 {
            wire_from(body, index + 4, octets + 1, total)
        } else {
            None
        }
    } else {
        wire_from(body, index + 1, octets + 1, total)
    }
}

/// The bytes that a rendered name takes up on the wire, if it is absolute.
pub open spec fn wire_length(name: Seq<char>) -> Option<nat> {
    let bytes = utf8::encode_utf8(name);
    if bytes.len() == 0 || bytes.last() != 0x2e {
        None
    } else {
        wire_from(bytes.drop_last(), 0, 0, 1)
    }
}

/// Whether a byte of a name is shown as itself.
pub open spec fn plain_in_name(byte: u8) -> bool {
    0x61 <= byte <= 0x7a || 0x30 <= byte <= 0x39 || byte == 0x2d || byte == 0x5f
}

pub open spec fn name_byte(byte: u8) -> Seq<char> {
    if plain_in_name(lower(byte)) {
        seq![lower(byte) as char]
    } else {
        seq!['\\'] + text::padded(lower(byte) as nat, 3)
    }
}

pub open spec fn rendered_label(label: Seq<u8>) -> Seq<char>
    decreases label.len(),
{
    if label.len() == 0 {
        Seq::empty()
    } else {
        rendered_label(label.drop_last()) + name_byte(label.last())
    }
}

/// Labels with a dot after each.
pub open spec fn rendered_labels(labels: Seq<Seq<u8>>) -> Seq<char>
    decreases labels.len(),
{
    if labels.len() == 0 {
        Seq::empty()
    } else {
        (rendered_labels(labels.drop_last()) + rendered_label(labels.last())).push('.')
    }
}

pub open spec fn misfit(labels: Seq<Seq<u8>>) -> bool {
    exists|i: int|
        0 <= i < labels.len() && ((#[trigger] labels[i]).len() == 0 || labels[i].len() > 63)
}

/// The canonical form of a name below an origin.
pub open spec fn name_of(path: Seq<char>, piece: Piece, origin: Seq<char>) -> Result<
    Seq<char>,
    Problem,
> {
    let at = piece.offset as int;
    match labels_of(path, piece) {
        Err(error) => Err(error),
        Ok(found) => if piece.raw == seq![0x40u8] {
            Ok(origin)
        } else if misfit(found.labels) {
            Err(problem::problem("E_LABEL_LENGTH"@, path, at, "label length is outside 1..=63"@))
        } else if !found.absolute && wire_length(origin) is None {
            Err(problem::problem("E_NAME"@, path, at, "internal origin is not canonical"@))
        } else if labels_length(found.labels) + (if found.absolute {
            1
        } else {
            wire_length(origin)->0
        }) > 255 {
            Err(problem::problem("E_NAME_LENGTH"@, path, at, "wire name exceeds 255 bytes"@))
        } else if found.absolute {
            Ok(rendered_labels(found.labels))
        } else {
            Ok(rendered_labels(found.labels) + origin)
        },
    }
}

pub open spec fn label_views(labels: Seq<Vec<u8>>) -> Seq<Seq<u8>> {
    labels.map_values(|label: Vec<u8>| label@)
}

fn extend_last(labels: &mut Vec<Vec<u8>>, byte: u8)
    requires
        old(labels)@.len() > 0,
    ensures
        label_views(final(labels)@) == longer(label_views(old(labels)@), byte),
{
    let ghost before = label_views(labels@);
    let last = labels.len() - 1;
    labels[last].push(byte);
    assert(label_views(labels@) =~= longer(before, byte));
}

fn split_labels(token: &Token, path: &str) -> (result: Result<(Vec<Vec<u8>>, bool), GateError>)
    ensures
        match result {
            Ok((labels, absolute)) => labels_of(path@, token@) == Ok::<Labels, Problem>(
                Labels { labels: label_views(labels@), absolute },
            ),
            Err(error) => labels_of(path@, token@) == Err::<Labels, Problem>(error@),
        },
{
    let ghost piece = token@;
    let mut labels: Vec<Vec<u8>> = Vec::new();
    labels.push(Vec::new());
    let mut index: usize = 0;
    assert(label_views(labels@) =~= seq![Seq::<u8>::empty()]);
    while index < token.raw.len()
        invariant
            index <= token.raw@.len(),
            piece == token@,
            labels@.len() > 0,
            labels_from(path@, piece, index as int, label_views(labels@)) == labels_of(
                path@,
                piece,
            ),
        decreases token.raw@.len() - index,
    {
        let byte = token.raw[index];
        let ghost before = label_views(labels@);
        if byte == 0x2e {
            let last = labels.len() - 1;
            assert(before.last() == labels@[last as int]@);
            if labels[last].len() == 0 {
                return Err(
                    GateError::new("E_NAME", path, place_of(token.offset, index), "empty label"),
                );
            }
            index = index + 1;
            if index == token.raw.len() {
                return Ok((labels, true));
            }
            let ghost earlier = labels@;
            labels.push(Vec::new());
            assert(label_views(labels@) =~= before.push(Seq::empty()));
        } else if byte == 0x5c {
            match decode_one_escape(&token.raw, index, path, token.offset) {
                Ok((decoded, consumed)) => {
                    extend_last(&mut labels, decoded);
                    index = index + consumed;
                },
                Err(error) => {
                    return Err(error);
                },
            }
        } else {
            extend_last(&mut labels, to_lower(byte));
            index = index + 1;
        }
    }
    Ok((labels, false))
}

fn canonical_wire_length(name: &str) -> (length: Option<u128>)
    ensures
        match length {
            Some(length) => wire_length(name@) == Some(length as nat),
            None => wire_length(name@) is None,
        },
{
    let bytes = name.as_bytes();
    let count: usize = bytes.len();
    if count == 0 || bytes[count - 1] != 0x2e {
        return None;
    }
    let ghost body = bytes@.drop_last();
    let end: usize = count - 1;
    let mut total: u128 = 1;
    let mut octets: u128 = 0;
    let mut index: usize = 0;
    while index < end
        invariant
            index <= end == count - 1,
            count == bytes@.len(),
            body == bytes@.drop_last(),
            wire_length(name@) == wire_from(body, 0, 0, 1),
            total + octets <= 1 + index,
            wire_from(body, index as int, octets as nat, total as nat) == wire_from(
                body,
                0,
                0,
                1,
            ),
        decreases end - index,
    {
        let byte = bytes[index];
        assert(body[index as int] == byte);
        if byte == 0x2e {
            if octets == 0 {
                return None;
            }
            total = total + octets + 1;
            octets = 0;
            index = index + 1;
        } else if byte == 0x5c {
            assert(end - index > 3 ==> body[index + 1] == bytes@[index + 1] && body[index + 2]
                == bytes@[index + 2] && body[index + 3] == bytes@[index + 3]);
            if end - index > 3 && is_byte_digit(bytes[index + 1]) && is_byte_digit(bytes[index + 2])
                && is_byte_digit(bytes[index + 3]) {
                octets = octets + 1;
                index = index + 4;
            } else {
                return None;
            }
        } else {
            octets = octets + 1;
            index = index + 1;
        }
    }
    if octets == 0 {
        None
    } else {
        Some(total + octets + 1)
    }
}

fn push_name_byte(out: &mut String, byte: u8)
    ensures
        final(out)@ == old(out)@ + name_byte(byte),
{
    let lowered = to_lower(byte);
    if (0x61 <= lowered && lowered <= 0x7a) || (0x30 <= lowered && lowered <= 0x39) || lowered
        == 0x2d || lowered == 0x5f {
        out.push(lowered as char);
        assert(out@ =~= old(out)@ + name_byte(byte));
    } else {
        out.push('\\');
        push_padded(out, lowered as u64, 3);
        assert(out@ =~= old(out)@ + name_byte(byte));
    }
}

/// Appends a label in its canonical form.
fn render_label(out: &mut String, label: &Vec<u8>)
    ensures
        final(out)@ == old(out)@ + rendered_label(label@),
{
    let mut i: usize = 0;
    assert(label@.take(0) =~= Seq::empty());
    assert(out@ =~= old(out)@ + rendered_label(label@.take(0)));
    while i < label.len()
        invariant
            i <= label@.len(),
            out@ == old(out)@ + rendered_label(label@.take(i as int)),
        decreases label@.len() - i,
    {
        push_name_byte(out, label[i]);
        proof {
            assert(label@.take(i + 1).drop_last() =~= label@.take(i as int));
            assert(out@ =~= old(out)@ + rendered_label(label@.take(i + 1)));
        }
        i = i + 1;
    }
    assert(label@.take(label@.len() as int) =~= label@);
}

fn measure_labels(labels: &Vec<Vec<u8>>) -> (result: (bool, u128))
    ensures
        result.0 == misfit(label_views(labels@)),
        !result.0 ==> result.1 == labels_length(label_views(labels@)) && result.1
            <= 64 * labels@.len(),
{
    let ghost shown = label_views(labels@);
    let mut length: u128 = 0;
    let mut i: usize = 0;
    assert(shown.take(0) =~= Seq::empty());
    while i < labels.len()
        invariant
            i <= labels@.len(),
            shown == label_views(labels@),
            length == labels_length(shown.take(i as int)),
            length <= 64 * i,
            forall|k: int| 0 <= k < i ==> 0 < (#[trigger] shown[k]).len() <= 63,
        decreases labels@.len() - i,
    {
        assert(shown[i as int] == labels@[i as int]@);
        let size: usize = labels[i].len();
        if size == 0 || size > 63 {
            return (true, 0);
        }
        proof {
            assert(shown.take(i + 1).drop_last() =~= shown.take(i as int));
        }
        length = length + size as u128 + 1;
        i = i + 1;
    }
    assert(shown.take(shown.len() as int) =~= shown);
    (false, length)
}

/// Appends labels in their canonical form, with a dot after each.
fn render_labels(labels: &Vec<Vec<u8>>) -> (rendered: String)
    ensures
        rendered@ == rendered_labels(label_views(labels@)),
{
    let ghost shown = label_views(labels@);
    let mut rendered = String::new();
    let mut i: usize = 0;
    assert(shown.take(0) =~= Seq::empty());
    while i < labels.len()
        invariant
            i <= labels@.len(),
            shown == label_views(labels@),
            rendered@ == rendered_labels(shown.take(i as int)),
        decreases labels@.len() - i,
    {
        render_label(&mut rendered, &labels[i]);
        rendered.push('.');
        proof {
            assert(shown.take(i + 1).drop_last() =~= shown.take(i as int));
            assert(shown[i as int] == labels@[i as int]@);
        }
        i = i + 1;
    }
    assert(shown.take(shown.len() as int) =~= shown);
    rendered
}

/// The canonical form of a name below an origin.
pub fn canonical_name(token: &Token, origin: &str, path: &str) -> (result: Result<
    String,
    GateError,
>)
    ensures
        problem::told_text(name_of(path@, token@, origin@), result),
{
    let (labels, absolute) = match split_labels(token, path) {
        Ok(found) => found,
        Err(error) => {
            return Err(error);
        },
    };
    let is_origin: bool = token.raw.len() == 1 && token.raw[0] == 0x40;
    proof {
        if is_origin {
            assert(token.raw@ =~= seq![0x40u8]);
        }
    }
    if is_origin {
        return Ok(origin.to_owned());
    }
    let (unfit, local) = measure_labels(&labels);
    if unfit {
        return Err(
            GateError::new(
                "E_LABEL_LENGTH",
                path,
                token.offset as u64,
                "label length is outside 1..=63",
            ),
        );
    }
    let rest: u128 = if absolute {
        1
    } else {
        match canonical_wire_length(origin) {
            Some(length) => length,
            None => {
                return Err(
                    GateError::new(
                        "E_NAME",
                        path,
                        token.offset as u64,
                        "internal origin is not canonical",
                    ),
                );
            },
        }
    };
    if local > 255 || rest > 255 || local + rest > 255 {
        return Err(
            GateError::new(
                "E_NAME_LENGTH",
                path,
                token.offset as u64,
                "wire name exceeds 255 bytes",
            ),
        );
    }
    let mut rendered = render_labels(&labels);
    if !absolute {
        rendered.append(origin);
    }
    Ok(rendered)
}

/// The octets that a token stands for, from a place on.
pub open spec fn octets_from(path: Seq<char>, piece: Piece, index: int, decoded: Seq<u8>) -> Result<
    Seq<u8>,
    Problem,
>
    decreases piece.raw.len() - index,
{
    let raw = piece.raw;
    if index >= raw.len() {
        Ok(decoded)
    } else if raw[index] == 0x5c {
        match escaped(raw, index) {
            Err(detail) => Err(escape_problem(path, piece.offset, index, detail)),
            Ok(byte) => octets_from(
                path,
                piece,
                index + token::escape_length(raw, index),
                decoded.push(byte),
            ),
        }
    } else {
        octets_from(path, piece, index + 1, decoded.push(raw[index]))
    }
}

pub open spec fn octets_of(path: Seq<char>, piece: Piece) -> Result<Seq<u8>, Problem> {
    octets_from(path, piece, 0, Seq::empty())
}

pub fn decode_token(token: &Token, path: &str) -> (result: Result<Vec<u8>, GateError>)
    ensures
        match result {
            Ok(decoded) => octets_of(path@, token@) == Ok::<Seq<u8>, Problem>(decoded@),
            Err(error) => octets_of(path@, token@) == Err::<Seq<u8>, Problem>(error@),
        },
{
    let ghost piece = token@;
    let mut decoded: Vec<u8> = Vec::new();
    let mut index: usize = 0;
    while index < token.raw.len()
        invariant
            index <= token.raw@.len(),
            piece == token@,
            octets_from(path@, piece, index as int, decoded@) == octets_of(path@, piece),
        decreases token.raw@.len() - index,
    {
        if token.raw[index] == 0x5c {
            match decode_one_escape(&token.raw, index, path, token.offset) {
                Ok((byte, consumed)) => {
                    decoded.push(byte);
                    index = index + consumed;
                },
                Err(error) => {
                    return Err(error);
                },
            }
        } else {
            decoded.push(token.raw[index]);
            index = index + 1;
        }
    }
    Ok(decoded)
}

pub open spec fn octet(byte: u8) -> Seq<char> {
    if 0x21 <= byte <= 0x7e && byte != 0x5c && byte != 0x7c && byte != 0x22 {
        seq![byte as char]
    } else {
        seq!['\\'] + text::padded(byte as nat, 3)
    }
}

/// Octets as text: what could be mistaken is escaped.
pub open spec fn rendered_octets(bytes: Seq<u8>) -> Seq<char>
    decreases bytes.len(),
{
    if bytes.len() == 0 {
        Seq::empty()
    } else {
        rendered_octets(bytes.drop_last()) + octet(bytes.last())
    }
}

/// Appends octets as text.
pub fn render_octets(out: &mut String, bytes: &Vec<u8>)
    ensures
        final(out)@ == old(out)@ + rendered_octets(bytes@),
{
    let mut i: usize = 0;
    assert(bytes@.take(0) =~= Seq::empty());
    assert(out@ =~= old(out)@ + rendered_octets(bytes@.take(0)));
    while i < bytes.len()
        invariant
            i <= bytes@.len(),
            out@ == old(out)@ + rendered_octets(bytes@.take(i as int)),
        decreases bytes@.len() - i,
    {
        let byte = bytes[i];
        let ghost before = out@;
        if 0x21 <= byte && byte <= 0x7e && byte != 0x5c && byte != 0x7c && byte != 0x22 {
            out.push(byte as char);
        } else {
            out.push('\\');
            push_padded(out, byte as u64, 3);
        }
        proof {
            assert(out@ =~= before + octet(byte));
            assert(bytes@.take(i + 1).drop_last() =~= bytes@.take(i as int));
            assert(out@ =~= old(out)@ + rendered_octets(bytes@.take(i + 1)));
        }
        i = i + 1;
    }
    assert(bytes@.take(bytes@.len() as int) =~= bytes@);
}

} // verus!
