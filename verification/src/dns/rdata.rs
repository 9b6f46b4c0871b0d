//! Record data in canonical form.

use vstd::prelude::*;
use crate::dns::name;
use crate::dns::name::{ascii, canonical_name, decode_token, parse_ttl, render_octets};
use crate::dns::problem;
use crate::dns::problem::{GateError, Problem};
use crate::dns::token;
use crate::dns::token::{Piece, Token};
use crate::ip;
use crate::ip::{parse_v4, parse_v6, push_v4, push_v6};
use crate::number;
use crate::number::read_integer;
use crate::text;
use crate::text::push_decimal;

verus! {

/// The kinds of records that zones hold.
#[derive(Debug, Clone, Copy, PartialEq, Eq, Structural)]
pub enum Kind {
    Soa,
    Ns,
    A,
    Aaaa,
    Cname,
    Mx,
    Txt,
    Srv,
    Caa,
    Ds,
}

/// The name of a kind of records.
pub open spec fn kind_name(kind: Kind) -> Seq<char> {
    match kind {
        Kind::Soa => "SOA"@,
        Kind::Ns => "NS"@,
        Kind::A => "A"@,
        Kind::Aaaa => "AAAA"@,
        Kind::Cname => "CNAME"@,
        Kind::Mx => "MX"@,
        Kind::Txt => "TXT"@,
        Kind::Srv => "SRV"@,
        Kind::Caa => "CAA"@,
        Kind::Ds => "DS"@,
    }
}

pub fn name_kind(kind: Kind) -> (text: &'static str)
    ensures
        text@ == kind_name(kind),
{
    match kind {
        Kind::Soa => "SOA",
        Kind::Ns => "NS",
        Kind::A => "A",
        Kind::Aaaa => "AAAA",
        Kind::Cname => "CNAME",
        Kind::Mx => "MX",
        Kind::Txt => "TXT",
        Kind::Srv => "SRV",
        Kind::Caa => "CAA",
        Kind::Ds => "DS",
    }
}

/// A letter with small ones made capital.
pub open spec fn upper(c: char) -> char {
    if 'a' <= c && c <= 'z' {
        (c as u32 - 0x20) as char
    } else {
        c
    }
}

/// The kind of records that a field names, whatever the case of its letters.
pub open spec fn kind_of(text: Seq<char>) -> Option<Kind> {
    let shown = text.map_values(|c: char| upper(c));
    if shown == "SOA"@ {
        Some(Kind::Soa)
    } else if shown == "NS"@ {
        Some(Kind::Ns)
    } else if shown == "A"@ {
        Some(Kind::A)
    } else if shown == "AAAA"@ {
        Some(Kind::Aaaa)
    } else if shown == "CNAME"@ {
        Some(Kind::Cname)
    } else if shown == "MX"@ {
        Some(Kind::Mx)
    } else if shown == "TXT"@ {
        Some(Kind::Txt)
    } else if shown == "SRV"@ {
        Some(Kind::Srv)
    } else if shown == "CAA"@ {
        Some(Kind::Caa)
    } else if shown == "DS"@ {
        Some(Kind::Ds)
    } else {
        None
    }
}

pub fn to_upper(c: char) -> (result: char)
    ensures
        result == upper(c),
{
    match c {
        'a' => 'A',
        'b' => 'B',
        'c' => 'C',
        'd' => 'D',
        'e' => 'E',
        'f' => 'F',
        'g' => 'G',
        'h' => 'H',
        'i' => 'I',
        'j' => 'J',
        'k' => 'K',
        'l' => 'L',
        'm' => 'M',
        'n' => 'N',
        'o' => 'O',
        'p' => 'P',
        'q' => 'Q',
        'r' => 'R',
        's' => 'S',
        't' => 'T',
        'u' => 'U',
        'v' => 'V',
        'w' => 'W',
        'x' => 'X',
        'y' => 'Y',
        'z' => 'Z',
        _ => c,
    }
}

/// Text in capitals.
pub fn uppercase(text: &Vec<char>) -> (shown: String)
    ensures
        shown@ == text@.map_values(|c: char| upper(c)),
{
    let mut shown = String::new();
    let mut i: usize = 0;
    while i < text.len()
        invariant
            i <= text@.len(),
            shown@ =~= text@.take(i as int).map_values(|c: char| upper(c)),
        decreases text@.len() - i,
    {
        shown.push(to_upper(text[i]));
        i = i + 1;
    }
    assert(text@.take(text@.len() as int) =~= text@);
    shown
}

/// Finds the kind of records that a field names.
pub fn record_type(text: &Vec<char>) -> (kind: Option<Kind>)
    ensures
        kind == kind_of(text@),
{
    let shown = uppercase(text);
    let shown = shown.as_str();
    if text::same_text(shown, "SOA") {
        Some(Kind::Soa)
    } else if text::same_text(shown, "NS") {
        Some(Kind::Ns)
    } else if text::same_text(shown, "A") {
        Some(Kind::A)
    } else if text::same_text(shown, "AAAA") {
        Some(Kind::Aaaa)
    } else if text::same_text(shown, "CNAME") {
        Some(Kind::Cname)
    } else if text::same_text(shown, "MX") {
        Some(Kind::Mx)
    } else if text::same_text(shown, "TXT") {
        Some(Kind::Txt)
    } else if text::same_text(shown, "SRV") {
        Some(Kind::Srv)
    } else if text::same_text(shown, "CAA") {
        Some(Kind::Caa)
    } else if text::same_text(shown, "DS") {
        Some(Kind::Ds)
    } else {
        None
    }
}

/// A letter with capitals made small.
pub open spec fn small(c: char) -> char {
    if 'A' <= c && c <= 'Z' {
        (c as u32 + 0x20) as char
    } else {
        c
    }
}

fn to_small(c: char) -> (result: char)
    ensures
        result == small(c),
{
    match c {
        'A' => 'a',
        'B' => 'b',
        'C' => 'c',
        'D' => 'd',
        'E' => 'e',
        'F' => 'f',
        'G' => 'g',
        'H' => 'h',
        'I' => 'i',
        'J' => 'j',
        'K' => 'k',
        'L' => 'l',
        'M' => 'm',
        'N' => 'n',
        'O' => 'o',
        'P' => 'p',
        'Q' => 'q',
        'R' => 'r',
        'S' => 's',
        'T' => 't',
        'U' => 'u',
        'V' => 'v',
        'W' => 'w',
        'X' => 'x',
        'Y' => 'y',
        'Z' => 'z',
        _ => c,
    }
}

/// Text in small letters.
pub fn lowercase(text: &Vec<char>) -> (shown: String)
    ensures
        shown@ == text@.map_values(|c: char| small(c)),
{
    let mut shown = String::new();
    let mut i: usize = 0;
    while i < text.len()
        invariant
            i <= text@.len(),
            shown@ =~= text@.take(i as int).map_values(|c: char| small(c)),
        decreases text@.len() - i,
    {
        shown.push(to_small(text[i]));
        i = i + 1;
    }
    assert(text@.take(text@.len() as int) =~= text@);
    shown
}

/// A fault in the data of a record.
pub open spec fn data_problem(path: Seq<char>, tokens: Seq<Piece>, detail: Seq<char>) -> Problem {
    problem::problem(
        "E_RDATA"@,
        path,
        if tokens.len() > 0 {
            tokens[0].offset as int
        } else {
            0
        },
        detail,
    )
}

fn data_error(path: &str, tokens: &Vec<Token>, detail: &str) -> (error: GateError)
    ensures
        error@ == data_problem(path@, token::pieces(tokens@), detail@),
{
    let offset: u64 = if tokens.len() > 0 {
        assert(token::pieces(tokens@)[0] == tokens@[0]@);
        tokens[0].offset as u64
    } else {
        0
    };
    GateError::new("E_RDATA", path, offset, detail)
}

pub open spec fn count_detail(expected: nat, found: nat) -> Seq<char> {
    "expected "@ + text::decimal(expected) + " RDATA fields, found "@ + text::decimal(found)
}

fn count_error(path: &str, tokens: &Vec<Token>, expected: usize) -> (error: GateError)
    ensures
        error@ == data_problem(
            path@,
            token::pieces(tokens@),
            count_detail(expected as nat, tokens@.len()),
        ),
{
    let mut detail = "expected ".to_owned();
    push_decimal(&mut detail, expected as u64);
    detail.append(" RDATA fields, found ");
    push_decimal(&mut detail, tokens.len() as u64);
    data_error(path, tokens, detail.as_str())
}

/// A number that must not be above a limit.
pub open spec fn number_of(
    path: Seq<char>,
    piece: Piece,
    limit: nat,
    detail: Seq<char>,
) -> Result<nat, Problem> {
    match name::text_of(path, piece) {
        Err(error) => Err(error),
        Ok(text) => match number::integer_within(text, limit) {
            Some(value) => Ok(value),
            None => Err(
                problem::problem("E_INTEGER_WIDTH"@, path, piece.offset as int, detail),
            ),
        },
    }
}

fn parse_number(token: &Token, path: &str, limit: u64, detail: &str) -> (result: Result<
    u64,
    GateError,
>)
    ensures
        match result {
            Ok(value) => number_of(path@, token@, limit as nat, detail@) == Ok::<nat, Problem>(
                value as nat,
            ),
            Err(error) => number_of(path@, token@, limit as nat, detail@) == Err::<nat, Problem>(
                error@,
            ),
        },
{
    let text = match ascii(token, path) {
        Ok(text) => text,
        Err(error) => {
            return Err(error);
        },
    };
    assert(text@.subrange(0, text@.len() as int) =~= text@);
    match read_integer(&text, 0, text.len(), limit) {
        Some(value) => Ok(value),
        None => Err(GateError::new("E_INTEGER_WIDTH", path, token.offset as u64, detail)),
    }
}

/// A field of record data as text.
pub enum Field {
    Name,
    Byte,
    Short,
    Long,
    Ttl,
}

/// A field in its canonical form.
pub open spec fn field_text(path: Seq<char>, piece: Piece, origin: Seq<char>, field: Field) -> Result<
    Seq<char>,
    Problem,
> {
    match field {
        Field::Name => name::name_of(path, piece, origin),
        Field::Byte => match number_of(path, piece, 255, "integer exceeds u8"@) {
            Ok(value) => Ok(text::decimal(value)),
            Err(error) => Err(error),
        },
        Field::Short => match number_of(path, piece, 65_535, "integer exceeds u16"@) {
            Ok(value) => Ok(text::decimal(value)),
            Err(error) => Err(error),
        },
        Field::Long => match number_of(path, piece, 4_294_967_295, "integer exceeds u32"@) {
            Ok(value) => Ok(text::decimal(value)),
            Err(error) => Err(error),
        },
        Field::Ttl => match name::ttl_of(path, piece) {
            Ok(value) => Ok(text::decimal(value as nat)),
            Err(error) => Err(error),
        },
    }
}

fn decimal_of(value: u64) -> (shown: String)
    ensures
        shown@ == text::decimal(value as nat),
{
    let mut shown = String::new();
    push_decimal(&mut shown, value);
    assert(shown@ =~= text::decimal(value as nat));
    shown
}

fn canonical_field(token: &Token, origin: &str, path: &str, field: &Field) -> (result: Result<
    String,
    GateError,
>)
    ensures
        problem::told_text(field_text(path@, token@, origin@, *field), result),
{
    match field {
        Field::Name => canonical_name(token, origin, path),
        Field::Byte => match parse_number(token, path, 255, "integer exceeds u8") {
            Ok(value) => Ok(decimal_of(value)),
            Err(error) => Err(error),
        },
        Field::Short => match parse_number(token, path, 65_535, "integer exceeds u16") {
            Ok(value) => Ok(decimal_of(value)),
            Err(error) => Err(error),
        },
        Field::Long => match parse_number(token, path, 4_294_967_295, "integer exceeds u32") {
            Ok(value) => Ok(decimal_of(value)),
            Err(error) => Err(error),
        },
        Field::Ttl => match parse_ttl(token, path) {
            Ok(value) => Ok(decimal_of(value as u64)),
            Err(error) => Err(error),
        },
    }
}

/// Fields between spaces, or the first fault among them.
pub open spec fn fields_text(
    path: Seq<char>,
    tokens: Seq<Piece>,
    origin: Seq<char>,
    layout: Seq<Field>,
    n: nat,
) -> Result<Seq<char>, Problem>
    decreases n,
{
    if n == 0 {
        Ok(Seq::empty())
    } else {
        match fields_text(path, tokens, origin, layout, (n - 1) as nat) {
            Err(error) => Err(error),
            Ok(front) => match field_text(path, tokens[n - 1], origin, layout[n - 1]) {
                Err(error) => Err(error),
                Ok(last) => Ok(
                    if n == 1 {
                        last
                    } else {
                        front + " "@ + last
                    },
                ),
            },
        }
    }
}

proof fn lemma_fields_stuck(
    path: Seq<char>,
    tokens: Seq<Piece>,
    origin: Seq<char>,
    layout: Seq<Field>,
    n: nat,
    m: nat,
)
    requires
        n <= m,
        fields_text(path, tokens, origin, layout, n) is Err,
    ensures
        fields_text(path, tokens, origin, layout, m) == fields_text(
            path,
            tokens,
            origin,
            layout,
            n,
        ),
    decreases m,
{
    if n < m {
        lemma_fields_stuck(path, tokens, origin, layout, n, (m - 1) as nat);
    }
}

/// As many fields as a layout has, in their canonical form.
pub open spec fn layout_text(
    path: Seq<char>,
    tokens: Seq<Piece>,
    origin: Seq<char>,
    layout: Seq<Field>,
) -> Result<Seq<char>, Problem> {
    if tokens.len() != layout.len() {
        Err(data_problem(path, tokens, count_detail(layout.len(), tokens.len())))
    } else {
        fields_text(path, tokens, origin, layout, layout.len())
    }
}

fn canonical_fields(tokens: &Vec<Token>, origin: &str, path: &str, layout: &Vec<Field>) -> (result:
    Result<String, GateError>)
    ensures
        problem::told_text(
            layout_text(path@, token::pieces(tokens@), origin@, layout@),
            result,
        ),
{
    let ghost shown = token::pieces(tokens@);
    if tokens.len() != layout.len() {
        return Err(count_error(path, tokens, layout.len()));
    }
    let mut rendered = String::new();
    let mut i: usize = 0;
    while i < layout.len()
        invariant
            i <= layout@.len() == tokens@.len(),
            shown == token::pieces(tokens@),
            fields_text(path@, shown, origin@, layout@, i as nat) == Ok::<Seq<char>, Problem>(
                rendered@,
            ),
            i == 0 ==> rendered@.len() == 0,
        decreases layout@.len() - i,
    {
        assert(shown[i as int] == tokens@[i as int]@);
        match canonical_field(&tokens[i], origin, path, &layout[i]) {
            Ok(field) => {
                let ghost before = rendered@;
                if i > 0 {
                    rendered.append(" ");
                }
                rendered.append(field.as_str());
                proof {
                    if i == 0 {
                        assert(rendered@ =~= field@);
                    }
                }
            },
            Err(error) => {
                proof {
                    lemma_fields_stuck(
                        path@,
                        shown,
                        origin@,
                        layout@,
                        (i + 1) as nat,
                        layout@.len(),
                    );
                }
                return Err(error);
            },
        }
        i = i + 1;
    }
    Ok(rendered)
}

/// The octets of text chunks between bars, or the first fault among them.
pub open spec fn chunks_text(path: Seq<char>, tokens: Seq<Piece>, n: nat) -> Result<
    Seq<char>,
    Problem,
>
    decreases n,
{
    if n == 0 {
        Ok(Seq::empty())
    } else {
        match chunks_text(path, tokens, (n - 1) as nat) {
            Err(error) => Err(error),
            Ok(front) => match name::octets_of(path, tokens[n - 1]) {
                Err(error) => Err(error),
                Ok(octets) => if octets.len() > 255 {
                    Err(
                        problem::problem(
                            "E_RDATA"@,
                            path,
                            tokens[n - 1].offset as int,
                            "TXT chunk exceeds 255 bytes"@,
                        ),
                    )
                } else if n == 1 {
                    Ok(name::rendered_octets(octets))
                } else {
                    Ok(front + "|"@ + name::rendered_octets(octets))
                },
            },
        }
    }
}

proof fn lemma_chunks_stuck(path: Seq<char>, tokens: Seq<Piece>, n: nat, m: nat)
    requires
        n <= m,
        chunks_text(path, tokens, n) is Err,
    ensures
        chunks_text(path, tokens, m) == chunks_text(path, tokens, n),
    decreases m,
{
    if n < m {
        lemma_chunks_stuck(path, tokens, n, (m - 1) as nat);
    }
}

pub open spec fn all_quoted(tokens: Seq<Piece>) -> bool {
    forall|i: int| 0 <= i < tokens.len() ==> (#[trigger] tokens[i]).quoted
}

pub open spec fn txt_text(path: Seq<char>, tokens: Seq<Piece>) -> Result<Seq<char>, Problem> {
    if tokens.len() == 0 || !all_quoted(tokens) {
        Err(data_problem(path, tokens, "TXT requires one or more quoted chunks"@))
    } else {
        chunks_text(path, tokens, tokens.len())
    }
}

fn canonical_txt(tokens: &Vec<Token>, path: &str) -> (result: Result<String, GateError>)
    ensures
        problem::told_text(txt_text(path@, token::pieces(tokens@)), result),
{
    let ghost shown = token::pieces(tokens@);
    let mut quoted: bool = true;
    let mut k: usize = 0;
    while k < tokens.len()
        invariant
            k <= tokens@.len(),
            shown == token::pieces(tokens@),
            quoted == forall|i: int| 0 <= i < k ==> (#[trigger] shown[i]).quoted,
        decreases tokens@.len() - k,
    {
        assert(shown[k as int] == tokens@[k as int]@);
        quoted = quoted && tokens[k].quoted;
        k = k + 1;
    }
    if tokens.len() == 0 || !quoted {
        return Err(data_error(path, tokens, "TXT requires one or more quoted chunks"));
    }
    let mut rendered = String::new();
    let mut i: usize = 0;
    while i < tokens.len()
        invariant
            i <= tokens@.len(),
            shown == token::pieces(tokens@),
            tokens@.len() > 0,
            all_quoted(shown),
            chunks_text(path@, shown, i as nat) == Ok::<Seq<char>, Problem>(rendered@),
            i == 0 ==> rendered@.len() == 0,
        decreases tokens@.len() - i,
    {
        assert(shown[i as int] == tokens@[i as int]@);
        let decoded = match decode_token(&tokens[i], path) {
            Ok(decoded) => decoded,
            Err(error) => {
                proof {
                    lemma_chunks_stuck(path@, shown, (i + 1) as nat, shown.len());
                }
                return Err(error);
            },
        };
        if decoded.len() > 255 {
            proof {
                lemma_chunks_stuck(path@, shown, (i + 1) as nat, shown.len());
            }
            return Err(
                GateError::new(
                    "E_RDATA",
                    path,
                    tokens[i].offset as u64,
                    "TXT chunk exceeds 255 bytes",
                ),
            );
        }
        if i > 0 {
            rendered.append("|");
        }
        render_octets(&mut rendered, &decoded);
        proof {
            if i == 0 {
                assert(rendered@ =~= name::rendered_octets(decoded@));
            }
        }
        i = i + 1;
    }
    Ok(rendered)
}

/// The text of the only token that there must be.
pub open spec fn only_text(path: Seq<char>, tokens: Seq<Piece>) -> Result<Seq<char>, Problem> {
    if tokens.len() != 1 {
        Err(data_problem(path, tokens, count_detail(1, tokens.len())))
    } else {
        name::text_of(path, tokens[0])
    }
}

fn one(tokens: &Vec<Token>, path: &str) -> (result: Result<Vec<char>, GateError>)
    ensures
        match result {
            Ok(text) => only_text(path@, token::pieces(tokens@)) == Ok::<Seq<char>, Problem>(
                text@,
            ),
            Err(error) => only_text(path@, token::pieces(tokens@)) == Err::<Seq<char>, Problem>(
                error@,
            ),
        },
{
    if tokens.len() != 1 {
        return Err(count_error(path, tokens, 1));
    }
    assert(token::pieces(tokens@)[0] == tokens@[0]@);
    ascii(&tokens[0], path)
}

pub open spec fn a_text(path: Seq<char>, tokens: Seq<Piece>) -> Result<Seq<char>, Problem> {
    match only_text(path, tokens) {
        Err(error) => Err(error),
        Ok(text) => match ip::v4_of(text) {
            Some(address) => Ok(ip::v4_text(address)),
            None => Err(data_problem(path, tokens, "invalid IPv4 address"@)),
        },
    }
}

pub open spec fn aaaa_text(path: Seq<char>, tokens: Seq<Piece>) -> Result<Seq<char>, Problem> {
    match only_text(path, tokens) {
        Err(error) => Err(error),
        Ok(text) => match ip::v6_groups(text) {
            Some(groups) => Ok(ip::v6_text(groups)),
            None => Err(data_problem(path, tokens, "invalid IPv6 address"@)),
        },
    }
}

fn canonical_a(tokens: &Vec<Token>, path: &str) -> (result: Result<String, GateError>)
    ensures
        problem::told_text(a_text(path@, token::pieces(tokens@)), result),
{
    match one(tokens, path) {
        Err(error) => Err(error),
        Ok(text) => match parse_v4(&text) {
            Some(address) => {
                let mut rendered = String::new();
                push_v4(&mut rendered, address);
                assert(rendered@ =~= ip::v4_text(address as nat));
                Ok(rendered)
            },
            None => Err(data_error(path, tokens, "invalid IPv4 address")),
        },
    }
}

fn canonical_aaaa(tokens: &Vec<Token>, path: &str) -> (result: Result<String, GateError>)
    ensures
        problem::told_text(aaaa_text(path@, token::pieces(tokens@)), result),
{
    match one(tokens, path) {
        Err(error) => Err(error),
        Ok(text) => match parse_v6(&text) {
            Some(groups) => {
                let mut rendered = String::new();
                push_v6(&mut rendered, &groups);
                assert(rendered@ =~= ip::v6_text(ip::group_views(groups@)));
                Ok(rendered)
            },
            None => Err(data_error(path, tokens, "invalid IPv6 address")),
        },
    }
}

pub open spec fn caa_text(path: Seq<char>, tokens: Seq<Piece>) -> Result<Seq<char>, Problem> {
    if tokens.len() != 3 {
        Err(data_problem(path, tokens, count_detail(3, tokens.len())))
    } else {
        match number_of(path, tokens[0], 255, "integer exceeds u8"@) {
            Err(error) => Err(error),
            Ok(flags) => match name::text_of(path, tokens[1]) {
                Err(error) => Err(error),
                Ok(tag) => match name::octets_of(path, tokens[2]) {
                    Err(error) => Err(error),
                    Ok(octets) => Ok(
                        text::decimal(flags) + " "@ + tag.map_values(|c: char| small(c)) + " "@
                            + name::rendered_octets(octets),
                    ),
                },
            },
        }
    }
}

fn canonical_caa(tokens: &Vec<Token>, path: &str) -> (result: Result<String, GateError>)
    ensures
        problem::told_text(caa_text(path@, token::pieces(tokens@)), result),
{
    if tokens.len() != 3 {
        return Err(count_error(path, tokens, 3));
    }
    proof {
        let shown = token::pieces(tokens@);
        assert(shown[0] == tokens@[0]@ && shown[1] == tokens@[1]@ && shown[2] == tokens@[2]@);
    }
    let flags = match parse_number(&tokens[0], path, 255, "integer exceeds u8") {
        Ok(flags) => flags,
        Err(error) => {
            return Err(error);
        },
    };
    let tag = match ascii(&tokens[1], path) {
        Ok(tag) => tag,
        Err(error) => {
            return Err(error);
        },
    };
    let decoded = match decode_token(&tokens[2], path) {
        Ok(decoded) => decoded,
        Err(error) => {
            return Err(error);
        },
    };
    let mut rendered = decimal_of(flags);
    rendered.append(" ");
    rendered.append(lowercase(&tag).as_str());
    rendered.append(" ");
    render_octets(&mut rendered, &decoded);
    Ok(rendered)
}

pub open spec fn is_hex(text: Seq<char>) -> bool {
    text.len() > 0 && forall|i: int|
        0 <= i < text.len() ==> ip::hex_value(#[trigger] text[i]) is Some
}

pub open spec fn ds_layout() -> Seq<Field> {
    seq![Field::Short, Field::Byte, Field::Byte]
}

pub open spec fn ds_text(path: Seq<char>, tokens: Seq<Piece>, origin: Seq<char>) -> Result<
    Seq<char>,
    Problem,
> {
    if tokens.len() != 4 {
        Err(data_problem(path, tokens, count_detail(4, tokens.len())))
    } else {
        match name::text_of(path, tokens[3]) {
            Err(error) => Err(error),
            Ok(digest) => if !is_hex(digest) {
                Err(data_problem(path, tokens, "invalid DS digest"@))
            } else {
                match fields_text(path, tokens, origin, ds_layout(), 3) {
                    Err(error) => Err(error),
                    Ok(front) => Ok(front + " "@ + digest.map_values(|c: char| upper(c))),
                }
            },
        }
    }
}

fn is_hex_text(text: &Vec<char>) -> (result: bool)
    ensures
        result == is_hex(text@),
{
    let mut i: usize = 0;
    while i < text.len()
        invariant
            i <= text@.len(),
            forall|k: int| 0 <= k < i ==> ip::hex_value(#[trigger] text@[k]) is Some,
        decreases text@.len() - i,
    {
        let c = text[i];
        if !(('0' <= c && c <= '9') || ('a' <= c && c <= 'f') || ('A' <= c && c <= 'F')) {
            return false;
        }
        i = i + 1;
    }
    text.len() > 0
}

fn canonical_ds(tokens: &Vec<Token>, origin: &str, path: &str) -> (result: Result<
    String,
    GateError,
>)
    ensures
        problem::told_text(ds_text(path@, token::pieces(tokens@), origin@), result),
{
    let ghost shown = token::pieces(tokens@);
    if tokens.len() != 4 {
        return Err(count_error(path, tokens, 4));
    }
    assert(shown[0] == tokens@[0]@ && shown[1] == tokens@[1]@ && shown[2] == tokens@[2]@
        && shown[3] == tokens@[3]@);
    let digest = match ascii(&tokens[3], path) {
        Ok(digest) => digest,
        Err(error) => {
            return Err(error);
        },
    };
    if !is_hex_text(&digest) {
        return Err(data_error(path, tokens, "invalid DS digest"));
    }
    proof {
        reveal_with_fuel(fields_text, 4);
    }
    let key_tag = match canonical_field(&tokens[0], origin, path, &Field::Short) {
        Ok(field) => field,
        Err(error) => {
            return Err(error);
        },
    };
    let algorithm = match canonical_field(&tokens[1], origin, path, &Field::Byte) {
        Ok(field) => field,
        Err(error) => {
            return Err(error);
        },
    };
    let digest_type = match canonical_field(&tokens[2], origin, path, &Field::Byte) {
        Ok(field) => field,
        Err(error) => {
            return Err(error);
        },
    };
    let mut rendered = key_tag;
    rendered.append(" ");
    rendered.append(algorithm.as_str());
    rendered.append(" ");
    rendered.append(digest_type.as_str());
    rendered.append(" ");
    rendered.append(uppercase(&digest).as_str());
    Ok(rendered)
}

/// The fields of the kinds of records that are no more than fields.
pub open spec fn layout_of(kind: Kind) -> Seq<Field> {
    match kind {
        Kind::Mx => seq![Field::Short, Field::Name],
        Kind::Srv => seq![Field::Short, Field::Short, Field::Short, Field::Name],
        Kind::Soa => seq![
            Field::Name,
            Field::Name,
            Field::Long,
            Field::Ttl,
            Field::Ttl,
            Field::Ttl,
            Field::Ttl,
        ],
        _ => seq![Field::Name],
    }
}

/// The data of a record in canonical form, or what is wrong with it.
pub open spec fn rdata_of(kind: Kind, path: Seq<char>, tokens: Seq<Piece>, origin: Seq<char>) -> Result<
    Seq<char>,
    Problem,
> {
    match kind {
        Kind::A => a_text(path, tokens),
        Kind::Aaaa => aaaa_text(path, tokens),
        Kind::Caa => caa_text(path, tokens),
        Kind::Ds => ds_text(path, tokens, origin),
        Kind::Txt => txt_text(path, tokens),
        _ => layout_text(path, tokens, origin, layout_of(kind)),
    }
}

/// The data of a record in canonical form.
pub fn canonical_rdata(kind: Kind, tokens: &Vec<Token>, origin: &str, path: &str) -> (result: Result<
    String,
    GateError,
>)
    ensures
        problem::told_text(rdata_of(kind, path@, token::pieces(tokens@), origin@), result),
{
    match kind {
        Kind::A => canonical_a(tokens, path),
        Kind::Aaaa => canonical_aaaa(tokens, path),
        Kind::Caa => canonical_caa(tokens, path),
        Kind::Ds => canonical_ds(tokens, origin, path),
        Kind::Txt => canonical_txt(tokens, path),
        Kind::Ns | Kind::Cname => {
            let layout: Vec<Field> = vec![Field::Name];
            assert(layout@ =~= layout_of(kind));
            canonical_fields(tokens, origin, path, &layout)
        },
        Kind::Mx => {
            let layout: Vec<Field> = vec![Field::Short, Field::Name];
            assert(layout@ =~= layout_of(kind));
            canonical_fields(tokens, origin, path, &layout)
        },
        Kind::Srv => {
            let layout: Vec<Field> = vec![Field::Short, Field::Short, Field::Short, Field::Name];
            assert(layout@ =~= layout_of(kind));
            canonical_fields(tokens, origin, path, &layout)
        },
        Kind::Soa => {
            let layout: Vec<Field> = vec![
                Field::Name,
                Field::Name,
                Field::Long,
                Field::Ttl,
                Field::Ttl,
                Field::Ttl,
                Field::Ttl,
            ];
            assert(layout@ =~= layout_of(kind));
            canonical_fields(tokens, origin, path, &layout)
        },
    }
}

} // verus!
