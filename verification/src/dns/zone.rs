//! Zones from logical records: owners, defaults, generated records and limits.

use vstd::prelude::*;
use crate::dns::name;
use crate::dns::name::{ascii, canonical_name, parse_ttl};
use crate::dns::problem;
use crate::dns::problem::{GateError, Problem};
use crate::dns::rdata;
use crate::dns::rdata::{canonical_rdata, lowercase, name_kind, record_type, uppercase, Kind};
use crate::dns::table::{Key, RecordKey, RecordTable};
use crate::dns::token;
use crate::dns::token::{LogicalRecord, Piece, Row, Token};
use crate::fields;
use crate::fields::find_char;
use crate::number;
use crate::number::read_integer;
use crate::text;
use crate::text::{push_decimal, same_text};

verus! {

#[derive(Debug, Clone, Copy)]
pub struct Limits {
    pub max_records_total: usize,
    pub max_records_per_zone: usize,
    pub max_include_depth: usize,
    pub max_generate_records: usize,
    pub ttl_decrease_percent: u32,
}

/// What records take over from what stands before them.
#[verifier::ext_equal]
pub struct Setting {
    pub origin: Seq<char>,
    pub owner: Option<Seq<char>>,
    pub ttl: Option<u32>,
}

/// What has been counted and kept.
#[verifier::ext_equal]
pub struct Tally {
    pub zone: usize,
    pub total: usize,
    pub records: Map<Key, u32>,
}

pub open spec fn row_problem(
    code: Seq<char>,
    path: Seq<char>,
    row: Row,
    detail: Seq<char>,
) -> Problem {
    problem::problem(code, path, row.offset as int, detail)
}

fn at_record(code: &'static str, path: &str, record: &LogicalRecord, detail: &str) -> (error:
    GateError)
    ensures
        error@ == row_problem(code@, path@, record@, detail@),
{
    GateError::new(code, path, record.offset as u64, detail)
}

/// Counts a record and keeps it, unless it is over a limit or contradicts one
/// that is kept.
pub open spec fn added(
    limits: Limits,
    path: Seq<char>,
    row: Row,
    key: Key,
    ttl: u32,
    tally: Tally,
) -> Result<Tally, Problem> {
    if tally.zone == usize::MAX {
        Err(row_problem("E_ZONE_LIMIT"@, path, row, "zone record counter overflow"@))
    } else if tally.total == usize::MAX {
        Err(row_problem("E_TOTAL_LIMIT"@, path, row, "total record counter overflow"@))
    } else if tally.zone + 1 > limits.max_records_per_zone {
        Err(row_problem("E_ZONE_LIMIT"@, path, row, "per-zone expansion limit exceeded"@))
    } else if tally.total + 1 > limits.max_records_total {
        Err(row_problem("E_TOTAL_LIMIT"@, path, row, "total expansion limit exceeded"@))
    } else if tally.records.contains_key(key) && tally.records[key] != ttl {
        Err(
            row_problem(
                "E_DUP_TTL"@,
                path,
                row,
                "duplicate canonical record has conflicting TTL"@,
            ),
        )
    } else {
        Ok(
            Tally {
                zone: (tally.zone + 1) as usize,
                total: (tally.total + 1) as usize,
                records: tally.records.insert(key, ttl),
            },
        )
    }
}

/// The fields before the data of a record.
pub struct Header {
    pub kind: Kind,
    pub ttl: Option<u32>,
    pub data: int,
}

pub open spec fn mandatory_problem(path: Seq<char>, piece: Piece) -> Problem {
    problem::problem(
        "E_FIELD"@,
        path,
        piece.offset as int,
        "unknown mandatory field before record type"@,
    )
}

/// The fields from a place up to the type of the record.
pub open spec fn header_from(
    path: Seq<char>,
    row: Row,
    index: int,
    ttl: Option<u32>,
    class_seen: bool,
) -> Result<Header, Problem>
    decreases row.tokens.len() - index,
{
    if index < 0 || index >= row.tokens.len() {
        Err(row_problem("E_FIELD"@, path, row, "missing record type"@))
    } else {
        let piece = row.tokens[index];
        match name::text_of(path, piece) {
            Err(error) => Err(error),
            Ok(text) => match rdata::kind_of(text) {
                Some(kind) => Ok(Header { kind, ttl, data: index + 1 }),
                None => if text.map_values(|c: char| rdata::upper(c)) == "IN"@ && !class_seen {
                    header_from(path, row, index + 1, ttl, true)
                } else if ttl is None {
                    match name::ttl_of(path, piece) {
                        Err(_) => Err(mandatory_problem(path, piece)),
                        Ok(found) => header_from(path, row, index + 1, Some(found), class_seen),
                    }
                } else {
                    Err(mandatory_problem(path, piece))
                },
            },
        }
    }
}

/// A resource record: what it leaves to the next, and what is kept of it.
pub open spec fn resource(
    limits: Limits,
    path: Seq<char>,
    row: Row,
    setting: Setting,
    tally: Tally,
) -> Result<(Setting, Tally), Problem> {
    if row.tokens.len() == 0 {
        Ok((setting, tally))
    } else {
        let named = if row.leading_whitespace {
            match setting.owner {
                Some(owner) => Ok::<Seq<char>, Problem>(owner),
                None => Err(
                    row_problem("E_OWNER"@, path, row, "omitted owner has no predecessor"@),
                ),
            }
        } else {
            name::name_of(path, row.tokens[0], setting.origin)
        };
        match named {
            Err(error) => Err(error),
            Ok(owner) => match header_from(
                path,
                row,
                if row.leading_whitespace {
                    0
                } else {
                    1
                },
                None,
                false,
            ) {
                Err(error) => Err(error),
                Ok(header) => {
                    let ttl = if header.ttl is Some {
                        header.ttl
                    } else {
                        setting.ttl
                    };
                    match ttl {
                        None => Err(
                            row_problem(
                                "E_TTL"@,
                                path,
                                row,
                                "record has no TTL and no $TTL default"@,
                            ),
                        ),
                        Some(ttl) => match rdata::rdata_of(
                            header.kind,
                            path,
                            row.tokens.skip(header.data),
                            setting.origin,
                        ) {
                            Err(error) => Err(error),
                            Ok(data) => match added(
                                limits,
                                path,
                                row,
                                Key {
                                    owner,
                                    record_type: rdata::kind_name(header.kind),
                                    rdata: data,
                                },
                                ttl,
                                tally,
                            ) {
                                Err(error) => Err(error),
                                Ok(after) => Ok((Setting { owner: Some(owner), ..setting }, after)),
                            },
                        },
                    }
                },
            },
        }
    }
}

/// The first, the last and the step of a generated range.
pub open spec fn range_of(path: Seq<char>, piece: Piece) -> Result<(u32, u32, u32), Problem> {
    match name::text_of(path, piece) {
        Err(error) => Err(error),
        Ok(text) => {
            let wrong = |detail: Seq<char>|
                Err::<(u32, u32, u32), Problem>(
                    problem::problem("E_GENERATE"@, path, piece.offset as int, detail),
                );
            let slash = fields::find(text, '/', 0);
            let dash = fields::find(text, '-', 0);
            if dash >= slash {
                wrong("range must be start-stop[/step]"@)
            } else {
                match number::integer_within(text.subrange(0, dash), u32::MAX as nat) {
                    None => wrong("invalid range start"@),
                    Some(first) => match number::integer_within(
                        text.subrange(dash + 1, slash),
                        u32::MAX as nat,
                    ) {
                        None => wrong("invalid range stop"@),
                        Some(last) => {
                            let stride = if slash < text.len() {
                                number::integer_within(
                                    text.subrange(slash + 1, text.len() as int),
                                    u32::MAX as nat,
                                )
                            } else {
                                Some(1nat)
                            };
                            match stride {
                                None => wrong("invalid range step"@),
                                Some(stride) => if first > last || stride == 0 {
                                    wrong("range must be increasing with positive step"@)
                                } else {
                                    Ok((first as u32, last as u32, stride as u32))
                                },
                            }
                        },
                    },
                }
            }
        },
    }
}

/// The dollar signs in a token.
pub open spec fn dollars(raw: Seq<u8>) -> nat
    decreases raw.len(),
{
    if raw.len() == 0 {
        0
    } else {
        dollars(raw.drop_last()) + if raw.last() == 0x24 {
            1nat
        } else {
            0
        }
    }
}

/// The dollar signs in the first `n` tokens after the range.
pub open spec fn dollars_in(tokens: Seq<Piece>, n: nat) -> nat
    decreases n,
{
    if n <= 2 {
        0
    } else {
        dollars_in(tokens, (n - 1) as nat) + dollars(tokens[n - 1].raw)
    }
}

/// A token with text in place of its dollar signs.
pub open spec fn replaced(raw: Seq<u8>, value: Seq<u8>) -> Seq<u8>
    decreases raw.len(),
{
    if raw.len() == 0 {
        Seq::empty()
    } else if raw.last() == 0x24 {
        replaced(raw.drop_last(), value) + value
    } else {
        replaced(raw.drop_last(), value).push(raw.last())
    }
}

/// The bytes of ASCII text.
pub open spec fn bytes_of(text: Seq<char>) -> Seq<u8> {
    text.map_values(|c: char| c as u8)
}

/// The record that a directive generates for a value.
pub open spec fn generated_row(row: Row, value: nat) -> Row {
    Row {
        tokens: row.tokens.skip(2).map_values(
            |piece: Piece|
                Piece { raw: replaced(piece.raw, bytes_of(text::decimal(value))), ..piece },
        ),
        leading_whitespace: false,
        offset: row.offset,
    }
}

/// The first `n` records that a directive generates.
pub open spec fn generated(
    limits: Limits,
    path: Seq<char>,
    row: Row,
    range: (u32, u32, u32),
    setting: Setting,
    tally: Tally,
    n: nat,
) -> Result<(Setting, Tally), Problem>
    decreases n,
{
    if n == 0 {
        Ok((setting, tally))
    } else {
        match generated(limits, path, row, range, setting, tally, (n - 1) as nat) {
            Err(error) => Err(error),
            Ok((before, counted)) => resource(
                limits,
                path,
                generated_row(row, (range.0 + (n - 1) * range.2) as nat),
                before,
                counted,
            ),
        }
    }
}

pub open spec fn range_count(range: (u32, u32, u32)) -> nat {
    ((range.1 - range.0) / (range.2 as int) + 1) as nat
}

/// A directive that generates records.
pub open spec fn generate(
    limits: Limits,
    path: Seq<char>,
    row: Row,
    setting: Setting,
    tally: Tally,
) -> Result<(Setting, Tally), Problem> {
    if row.tokens.len() < 5 {
        Err(row_problem("E_GENERATE"@, path, row, "$GENERATE is incomplete"@))
    } else {
        match range_of(path, row.tokens[1]) {
            Err(error) => Err(error),
            Ok(range) => {
                let count = range_count(range);
                if count > usize::MAX {
                    Err(
                        row_problem(
                            "E_GENERATE_LIMIT"@,
                            path,
                            row,
                            "range size exceeds platform width"@,
                        ),
                    )
                } else if count > limits.max_generate_records {
                    Err(
                        row_problem(
                            "E_GENERATE_LIMIT"@,
                            path,
                            row,
                            "directive expands to "@ + text::decimal(count) + " records"@,
                        ),
                    )
                } else if dollars_in(row.tokens, row.tokens.len()) != 1 {
                    Err(
                        row_problem(
                            "E_GENERATE_SUBSTITUTION"@,
                            path,
                            row,
                            "exactly one simple substitution token is required"@,
                        ),
                    )
                } else {
                    generated(limits, path, row, range, setting, tally, count)
                }
            },
        }
    }
}

/// What a record tells the reader of a zone to do.
#[derive(Debug, Clone, Copy, PartialEq, Eq, Structural)]
pub enum Directive {
    Origin,
    Ttl,
    Include,
    Generate,
    Unsupported,
    Resource,
}

pub open spec fn lowered(raw: Seq<u8>) -> Seq<char> {
    name::letters(raw).map_values(|c: char| rdata::small(c))
}

pub open spec fn directive_of(row: Row) -> Directive {
    if row.tokens.len() == 0 {
        Directive::Resource
    } else {
        let first = lowered(row.tokens[0].raw);
        if first == "$origin"@ {
            Directive::Origin
        } else if first == "$ttl"@ {
            Directive::Ttl
        } else if first == "$include"@ {
            Directive::Include
        } else if first == "$generate"@ {
            Directive::Generate
        } else if row.tokens[0].raw.len() > 0 && row.tokens[0].raw[0] == 0x24 {
            Directive::Unsupported
        } else {
            Directive::Resource
        }
    }
}

/// A file that a record asks for, and the setting that it is read in.
#[verifier::ext_equal]
pub struct Ask {
    pub including: Seq<char>,
    pub requested: Seq<char>,
    pub setting: Setting,
}

/// What a record comes to: a change of what follows and of what is kept, or a
/// file to read first.
pub enum Effect {
    Kept(Setting, Tally),
    Included(Ask),
}

pub open spec fn inclusion(path: Seq<char>, row: Row, setting: Setting) -> Result<Ask, Problem> {
    if !(2 <= row.tokens.len() <= 3) {
        Err(row_problem("E_DIRECTIVE"@, path, row, "$INCLUDE requires path and optional origin"@))
    } else {
        match name::text_of(path, row.tokens[1]) {
            Err(error) => Err(error),
            Ok(requested) => if row.tokens.len() == 3 {
                match name::name_of(path, row.tokens[2], setting.origin) {
                    Err(error) => Err(error),
                    Ok(origin) => Ok(
                        Ask { including: path, requested, setting: Setting { origin, ..setting } },
                    ),
                }
            } else {
                Ok(Ask { including: path, requested, setting })
            },
        }
    }
}

/// The effect of a record.
pub open spec fn effect(
    limits: Limits,
    path: Seq<char>,
    row: Row,
    setting: Setting,
    tally: Tally,
) -> Result<Effect, Problem> {
    match directive_of(row) {
        Directive::Origin => if row.tokens.len() == 2 {
            match name::name_of(path, row.tokens[1], setting.origin) {
                Err(error) => Err(error),
                Ok(origin) => Ok(Effect::Kept(Setting { origin, ..setting }, tally)),
            }
        } else {
            Err(row_problem("E_DIRECTIVE"@, path, row, "$ORIGIN requires one name"@))
        },
        Directive::Ttl => if row.tokens.len() == 2 {
            match name::ttl_of(path, row.tokens[1]) {
                Err(error) => Err(error),
                Ok(ttl) => Ok(Effect::Kept(Setting { ttl: Some(ttl), ..setting }, tally)),
            }
        } else {
            Err(row_problem("E_DIRECTIVE"@, path, row, "$TTL requires one value"@))
        },
        Directive::Include => match inclusion(path, row, setting) {
            Err(error) => Err(error),
            Ok(ask) => Ok(Effect::Included(ask)),
        },
        Directive::Generate => match generate(limits, path, row, setting, tally) {
            Err(error) => Err(error),
            Ok((after, counted)) => Ok(Effect::Kept(after, counted)),
        },
        Directive::Unsupported => Err(
            row_problem("E_DIRECTIVE"@, path, row, "unsupported directive"@),
        ),
        Directive::Resource => match resource(limits, path, row, setting, tally) {
            Err(error) => Err(error),
            Ok((after, counted)) => Ok(Effect::Kept(after, counted)),
        },
    }
}

/// What records take over from what stands before them.
#[derive(Debug, Clone)]
pub struct Defaults {
    pub origin: String,
    pub owner: Option<String>,
    pub ttl: Option<u32>,
}

impl View for Defaults {
    type V = Setting;

    open spec fn view(&self) -> Setting {
        Setting {
            origin: self.origin@,
            owner: match self.owner {
                Some(owner) => Some(owner@),
                None => None,
            },
            ttl: self.ttl,
        }
    }
}

impl Defaults {
    pub fn copy(&self) -> (copy: Defaults)
        ensures
            copy@ == self@,
    {
        Defaults {
            origin: self.origin.as_str().to_owned(),
            owner: match &self.owner {
                Some(owner) => Some(owner.as_str().to_owned()),
                None => None,
            },
            ttl: self.ttl,
        }
    }
}

/// What has been counted and kept of a zone.
#[derive(Debug, Clone)]
pub struct Counted {
    pub zone: usize,
    pub total: usize,
    pub records: RecordTable,
}

impl View for Counted {
    type V = Tally;

    open spec fn view(&self) -> Tally {
        Tally { zone: self.zone, total: self.total, records: self.records@ }
    }
}

impl Counted {
    fn add_record(
        &mut self,
        limits: &Limits,
        path: &str,
        record: &LogicalRecord,
        key: RecordKey,
        ttl: u32,
    ) -> (result: Result<(), GateError>)
        requires
            old(self).records.sound(),
        ensures
            match result {
                Ok(()) => added(*limits, path@, record@, key@, ttl, old(self)@) == Ok::<
                    Tally,
                    Problem,
                >(final(self)@) && final(self).records.sound(),
                Err(error) => added(*limits, path@, record@, key@, ttl, old(self)@) == Err::<
                    Tally,
                    Problem,
                >(error@),
            },
    {
        if self.zone == usize::MAX {
            return Err(
                at_record("E_ZONE_LIMIT", path, record, "zone record counter overflow"),
            );
        }
        if self.total == usize::MAX {
            return Err(
                at_record("E_TOTAL_LIMIT", path, record, "total record counter overflow"),
            );
        }
        if self.zone + 1 > limits.max_records_per_zone {
            return Err(
                at_record("E_ZONE_LIMIT", path, record, "per-zone expansion limit exceeded"),
            );
        }
        if self.total + 1 > limits.max_records_total {
            return Err(
                at_record("E_TOTAL_LIMIT", path, record, "total expansion limit exceeded"),
            );
        }
        match self.records.get(&key) {
            Some(existing) => {
                if existing != ttl {
                    return Err(
                        at_record(
                            "E_DUP_TTL",
                            path,
                            record,
                            "duplicate canonical record has conflicting TTL",
                        ),
                    );
                }
                assert(self.records@.insert(key@, ttl) =~= self.records@);
            },
            None => {
                self.records.put(key, ttl);
            },
        }
        self.zone = self.zone + 1;
        self.total = self.total + 1;
        Ok(())
    }
}

fn copy_tokens(tokens: &Vec<Token>, from: usize) -> (copies: Vec<Token>)
    requires
        from <= tokens@.len(),
    ensures
        token::pieces(copies@) == token::pieces(tokens@).skip(from as int),
{
    let ghost shown = token::pieces(tokens@);
    let mut copies: Vec<Token> = Vec::new();
    let mut i: usize = from;
    while i < tokens.len()
        invariant
            from <= i <= tokens@.len(),
            shown == token::pieces(tokens@),
            token::pieces(copies@) =~= shown.subrange(from as int, i as int),
        decreases tokens@.len() - i,
    {
        let ghost before = copies@;
        let copy = Token {
            raw: copy_bytes(&tokens[i].raw),
            quoted: tokens[i].quoted,
            offset: tokens[i].offset,
        };
        copies.push(copy);
        proof {
            assert(token::pieces(copies@) =~= token::pieces(before).push(copy@));
            assert(shown[i as int] == tokens@[i as int]@);
            assert(copy@ =~= tokens@[i as int]@);
        }
        i = i + 1;
    }
    assert(shown.subrange(from as int, shown.len() as int) =~= shown.skip(from as int));
    copies
}

fn copy_bytes(bytes: &Vec<u8>) -> (copy: Vec<u8>)
    ensures
        copy@ == bytes@,
{
    let mut copy: Vec<u8> = Vec::new();
    let mut i: usize = 0;
    while i < bytes.len()
        invariant
            i <= bytes@.len(),
            copy@ =~= bytes@.take(i as int),
        decreases bytes@.len() - i,
    {
        copy.push(bytes[i]);
        i = i + 1;
    }
    copy
}

/// The fields before the data of a record.
struct Found {
    kind: Kind,
    ttl: Option<u32>,
    data: usize,
}

fn read_header(path: &str, record: &LogicalRecord, from: usize) -> (result: Result<
    Found,
    GateError,
>)
    requires
        from <= record.tokens@.len(),
    ensures
        match result {
            Ok(found) => header_from(path@, record@, from as int, None, false) == Ok::<
                Header,
                Problem,
            >(Header { kind: found.kind, ttl: found.ttl, data: found.data as int }) && found.data
                <= record.tokens@.len(),
            Err(error) => header_from(path@, record@, from as int, None, false) == Err::<
                Header,
                Problem,
            >(error@),
        },
{
    let ghost row = record@;
    let mut index: usize = from;
    let mut ttl: Option<u32> = None;
    let mut class_seen: bool = false;
    while index < record.tokens.len()
        invariant
            index <= record.tokens@.len(),
            row == record@,
            header_from(path@, row, from as int, None, false) == header_from(
                path@,
                row,
                index as int,
                ttl,
                class_seen,
            ),
        decreases record.tokens@.len() - index,
    {
        let token = &record.tokens[index];
        assert(row.tokens[index as int] == token@);
        let text = match ascii(token, path) {
            Ok(text) => text,
            Err(error) => {
                return Err(error);
            },
        };
        if let Some(kind) = record_type(&text) {
            return Ok(Found { kind, ttl, data: index + 1 });
        }
        if !class_seen && same_text(uppercase(&text).as_str(), "IN") {
            class_seen = true;
        } else if ttl.is_none() {
            match parse_ttl(token, path) {
                Ok(found) => {
                    ttl = Some(found);
                },
                Err(_) => {
                    return Err(
                        GateError::new(
                            "E_FIELD",
                            path,
                            token.offset as u64,
                            "unknown mandatory field before record type",
                        ),
                    );
                },
            }
        } else {
            return Err(
                GateError::new(
                    "E_FIELD",
                    path,
                    token.offset as u64,
                    "unknown mandatory field before record type",
                ),
            );
        }
        index = index + 1;
    }
    Err(at_record("E_FIELD", path, record, "missing record type"))
}

/// Reads a resource record.
pub fn parse_resource(
    limits: &Limits,
    path: &str,
    record: &LogicalRecord,
    defaults: &mut Defaults,
    counted: &mut Counted,
) -> (result: Result<(), GateError>)
    requires
        old(counted).records.sound(),
    ensures
        match result {
            Ok(()) => resource(*limits, path@, record@, old(defaults)@, old(counted)@) == Ok::<
                (Setting, Tally),
                Problem,
            >((final(defaults)@, final(counted)@)) && final(counted).records.sound(),
            Err(error) => resource(*limits, path@, record@, old(defaults)@, old(counted)@)
                == Err::<(Setting, Tally), Problem>(error@),
        },
{
    let ghost row = record@;
    if record.tokens.len() == 0 {
        return Ok(());
    }
    assert(row.tokens[0] == record.tokens@[0]@);
    let owner: String = if record.leading_whitespace {
        match &defaults.owner {
            Some(owner) => owner.as_str().to_owned(),
            None => {
                return Err(
                    at_record("E_OWNER", path, record, "omitted owner has no predecessor"),
                );
            },
        }
    } else {
        match canonical_name(&record.tokens[0], defaults.origin.as_str(), path) {
            Ok(owner) => owner,
            Err(error) => {
                return Err(error);
            },
        }
    };
    let from: usize = if record.leading_whitespace {
        0
    } else {
        1
    };
    let found = match read_header(path, record, from) {
        Ok(found) => found,
        Err(error) => {
            return Err(error);
        },
    };
    let ttl: u32 = match found.ttl {
        Some(ttl) => ttl,
        None => match defaults.ttl {
            Some(ttl) => ttl,
            None => {
                return Err(
                    at_record("E_TTL", path, record, "record has no TTL and no $TTL default"),
                );
            },
        },
    };
    let data = copy_tokens(&record.tokens, found.data);
    let rdata = match canonical_rdata(found.kind, &data, defaults.origin.as_str(), path) {
        Ok(rdata) => rdata,
        Err(error) => {
            return Err(error);
        },
    };
    let key = RecordKey {
        owner: owner.as_str().to_owned(),
        record_type: name_kind(found.kind).to_owned(),
        rdata,
    };
    match counted.add_record(limits, path, record, key, ttl) {
        Ok(()) => {},
        Err(error) => {
            return Err(error);
        },
    }
    let ghost before = defaults@;
    defaults.owner = Some(owner);
    assert(defaults@ =~= Setting { owner: Some(owner@), ..before });
    Ok(())
}

/// Reads the range of a directive that generates records.
pub fn parse_range(token: &Token, path: &str) -> (result: Result<(u32, u32, u32), GateError>)
    ensures
        problem::told(range_of(path@, token@), result),
{
    let text = match ascii(token, path) {
        Ok(text) => text,
        Err(error) => {
            return Err(error);
        },
    };
    let offset = token.offset as u64;
    let slash = find_char(&text, '/', 0);
    let dash = find_char(&text, '-', 0);
    if dash >= slash {
        return Err(GateError::new("E_GENERATE", path, offset, "range must be start-stop[/step]"));
    }
    let first: u32 = match read_integer(&text, 0, dash, u32::MAX as u64) {
        Some(first) => first as u32,
        None => {
            return Err(GateError::new("E_GENERATE", path, offset, "invalid range start"));
        },
    };
    let last: u32 = match read_integer(&text, dash + 1, slash, u32::MAX as u64) {
        Some(last) => last as u32,
        None => {
            return Err(GateError::new("E_GENERATE", path, offset, "invalid range stop"));
        },
    };
    let stride: u32 = if slash < text.len() {
        match read_integer(&text, slash + 1, text.len(), u32::MAX as u64) {
            Some(stride) => stride as u32,
            None => {
                return Err(GateError::new("E_GENERATE", path, offset, "invalid range step"));
            },
        }
    } else {
        1
    };
    if first > last || stride == 0 {
        return Err(
            GateError::new(
                "E_GENERATE",
                path,
                offset,
                "range must be increasing with positive step",
            ),
        );
    }
    Ok((first, last, stride))
}

fn count_dollars(raw: &Vec<u8>) -> (count: u128)
    ensures
        count == dollars(raw@),
        count <= usize::MAX,
{
    let mut count: u128 = 0;
    let mut i: usize = 0;
    assert(raw@.take(0) =~= Seq::empty());
    while i < raw.len()
        invariant
            i <= raw@.len(),
            count == dollars(raw@.take(i as int)),
            count <= i,
        decreases raw@.len() - i,
    {
        assert(raw@.take(i + 1).drop_last() =~= raw@.take(i as int));
        if raw[i] == 0x24 {
            count = count + 1;
        }
        i = i + 1;
    }
    assert(raw@.take(raw@.len() as int) =~= raw@);
    count
}

proof fn lemma_dollars_grow(tokens: Seq<Piece>, n: nat, m: nat)
    requires
        n <= m,
    ensures
        dollars_in(tokens, n) <= dollars_in(tokens, m),
    decreases m,
{
    if n < m {
        lemma_dollars_grow(tokens, n, (m - 1) as nat);
    }
}

fn has_one_dollar(tokens: &Vec<Token>) -> (result: bool)
    requires
        tokens@.len() >= 2,
    ensures
        result == (dollars_in(token::pieces(tokens@), tokens@.len()) == 1),
{
    let ghost shown = token::pieces(tokens@);
    let mut seen: u128 = 0;
    let mut i: usize = 2;
    while i < tokens.len()
        invariant
            2 <= i <= tokens@.len(),
            shown == token::pieces(tokens@),
            seen == dollars_in(shown, i as nat),
            seen <= 1,
        decreases tokens@.len() - i,
    {
        assert(shown[i as int] == tokens@[i as int]@);
        seen = seen + count_dollars(&tokens[i].raw);
        proof {
            lemma_dollars_grow(shown, (i + 1) as nat, shown.len());
        }
        if seen > 1 {
            return false;
        }
        i = i + 1;
    }
    seen == 1
}

fn replace_dollar(raw: &Vec<u8>, value: &Vec<u8>) -> (output: Vec<u8>)
    ensures
        output@ == replaced(raw@, value@),
{
    let mut output: Vec<u8> = Vec::new();
    let mut i: usize = 0;
    assert(raw@.take(0) =~= Seq::empty());
    while i < raw.len()
        invariant
            i <= raw@.len(),
            output@ == replaced(raw@.take(i as int), value@),
        decreases raw@.len() - i,
    {
        let ghost before = output@;
        assert(raw@.take(i + 1).drop_last() =~= raw@.take(i as int));
        if raw[i] == 0x24 {
            let mut copy = copy_bytes(value);
            output.append(&mut copy);
            assert(output@ =~= before + value@);
        } else {
            output.push(raw[i]);
        }
        i = i + 1;
    }
    assert(raw@.take(raw@.len() as int) =~= raw@);
    output
}

fn digit_byte(value: u64) -> (byte: u8)
    requires
        value < 10,
    ensures
        byte == text::digit(value as nat) as u8,
{
    match value {
        0 => 0x30,
        1 => 0x31,
        2 => 0x32,
        3 => 0x33,
        4 => 0x34,
        5 => 0x35,
        6 => 0x36,
        7 => 0x37,
        8 => 0x38,
        _ => 0x39,
    }
}

fn decimal_bytes(value: u64) -> (bytes: Vec<u8>)
    ensures
        bytes@ == bytes_of(text::decimal(value as nat)),
    decreases value,
{
    if value < 10 {
        let bytes: Vec<u8> = vec![digit_byte(value)];
        assert(bytes@ =~= bytes_of(text::decimal(value as nat)));
        bytes
    } else {
        let mut bytes = decimal_bytes(value / 10);
        let ghost before = bytes@;
        bytes.push(digit_byte(value % 10));
        proof {
            assert(bytes@ =~= bytes_of(text::decimal(value as nat)));
        }
        bytes
    }
}

fn generate_record(record: &LogicalRecord, value: u32) -> (made: LogicalRecord)
    requires
        record.tokens@.len() >= 2,
    ensures
        made@ == generated_row(record@, value as nat),
{
    let ghost row = record@;
    let ghost target = generated_row(row, value as nat);
    let replacement = decimal_bytes(value as u64);
    let mut tokens: Vec<Token> = Vec::new();
    let mut i: usize = 2;
    while i < record.tokens.len()
        invariant
            2 <= i <= record.tokens@.len(),
            row == record@,
            target == generated_row(row, value as nat),
            replacement@ == bytes_of(text::decimal(value as nat)),
            token::pieces(tokens@) =~= target.tokens.take(i - 2),
        decreases record.tokens@.len() - i,
    {
        let ghost before = tokens@;
        let token = &record.tokens[i];
        let made = Token {
            raw: replace_dollar(&token.raw, &replacement),
            quoted: token.quoted,
            offset: token.offset,
        };
        tokens.push(made);
        proof {
            assert(row.tokens[i as int] == token@);
            assert(row.tokens.skip(2)[i - 2] == token@);
            assert(target.tokens[i - 2] =~= made@);
            assert(token::pieces(tokens@) =~= token::pieces(before).push(made@));
        }
        i = i + 1;
    }
    assert(target.tokens.take(target.tokens.len() as int) =~= target.tokens);
    let made = LogicalRecord { tokens, leading_whitespace: false, offset: record.offset };
    assert(made@ =~= target);
    made
}

proof fn lemma_generated_stuck(
    limits: Limits,
    path: Seq<char>,
    row: Row,
    range: (u32, u32, u32),
    setting: Setting,
    tally: Tally,
    n: nat,
    m: nat,
)
    requires
        n <= m,
        generated(limits, path, row, range, setting, tally, n) is Err,
    ensures
        generated(limits, path, row, range, setting, tally, m) == generated(
            limits,
            path,
            row,
            range,
            setting,
            tally,
            n,
        ),
    decreases m,
{
    if n < m {
        lemma_generated_stuck(limits, path, row, range, setting, tally, n, (m - 1) as nat);
    }
}

proof fn lemma_in_range(range: (u32, u32, u32), i: int)
    requires
        range.0 <= range.1,
        range.2 > 0,
        0 <= i < range_count(range),
    ensures
        range.0 + i * range.2 <= range.1,
{
    let span = range.1 - range.0;
    let stride = range.2 as int;
    assert(i <= span / stride);
    assert(i * stride <= span) by (nonlinear_arith)
        requires
            0 <= i <= span / stride,
            stride > 0,
            span >= 0,
    ;
}

/// Reads a directive that generates records.
pub fn parse_generate(
    limits: &Limits,
    path: &str,
    record: &LogicalRecord,
    defaults: &mut Defaults,
    counted: &mut Counted,
) -> (result: Result<(), GateError>)
    requires
        old(counted).records.sound(),
    ensures
        match result {
            Ok(()) => generate(*limits, path@, record@, old(defaults)@, old(counted)@) == Ok::<
                (Setting, Tally),
                Problem,
            >((final(defaults)@, final(counted)@)) && final(counted).records.sound(),
            Err(error) => generate(*limits, path@, record@, old(defaults)@, old(counted)@)
                == Err::<(Setting, Tally), Problem>(error@),
        },
{
    let ghost row = record@;
    if record.tokens.len() < 5 {
        return Err(at_record("E_GENERATE", path, record, "$GENERATE is incomplete"));
    }
    assert(row.tokens[1] == record.tokens@[1]@);
    let range = match parse_range(&record.tokens[1], path) {
        Ok(range) => range,
        Err(error) => {
            return Err(error);
        },
    };
    let (first, last, stride) = range;
    let count: u64 = (last as u64 - first as u64) / stride as u64 + 1;
    assert(count == range_count(range));
    if count > usize::MAX as u64 {
        return Err(
            at_record("E_GENERATE_LIMIT", path, record, "range size exceeds platform width"),
        );
    }
    if count > limits.max_generate_records as u64 {
        let mut detail = "directive expands to ".to_owned();
        push_decimal(&mut detail, count);
        detail.append(" records");
        return Err(at_record("E_GENERATE_LIMIT", path, record, detail.as_str()));
    }
    if !has_one_dollar(&record.tokens) {
        return Err(
            at_record(
                "E_GENERATE_SUBSTITUTION",
                path,
                record,
                "exactly one simple substitution token is required",
            ),
        );
    }
    let ghost setting = defaults@;
    let ghost tally = counted@;
    let mut i: u64 = 0;
    while i < count
        invariant
            i <= count == range_count(range),
            range == (first, last, stride),
            first <= last,
            stride > 0,
            row == record@,
            record.tokens@.len() >= 5,
            setting == old(defaults)@,
            tally == old(counted)@,
            counted.records.sound(),
            generate(*limits, path@, row, setting, tally) == generated(
                *limits,
                path@,
                row,
                range,
                setting,
                tally,
                count as nat,
            ),
            generated(*limits, path@, row, range, setting, tally, i as nat) == Ok::<
                (Setting, Tally),
                Problem,
            >((defaults@, counted@)),
        decreases count - i,
    {
        proof {
            lemma_in_range(range, i as int);
            assert(i * stride >= 0) by (nonlinear_arith)
                requires
                    i >= 0,
                    stride > 0,
            ;
        }
        let value: u32 = (first as u64 + i * stride as u64) as u32;
        let made = generate_record(record, value);
        match parse_resource(limits, path, &made, defaults, counted) {
            Ok(()) => {},
            Err(error) => {
                proof {
                    lemma_generated_stuck(
                        *limits,
                        path@,
                        row,
                        range,
                        setting,
                        tally,
                        (i + 1) as nat,
                        count as nat,
                    );
                }
                return Err(error);
            },
        }
        i = i + 1;
    }
    Ok(())
}

fn lower_text(raw: &Vec<u8>) -> (shown: String)
    ensures
        shown@ == lowered(raw@),
{
    let mut chars: Vec<char> = Vec::new();
    let mut i: usize = 0;
    while i < raw.len()
        invariant
            i <= raw@.len(),
            chars@ =~= name::letters(raw@.take(i as int)),
        decreases raw@.len() - i,
    {
        let ghost before = chars@;
        chars.push(raw[i] as char);
        assert(name::letters(raw@.take(i + 1)) =~= name::letters(raw@.take(i as int)).push(
            raw@[i as int] as char,
        ));
        i = i + 1;
    }
    assert(raw@.take(raw@.len() as int) =~= raw@);
    lowercase(&chars)
}

fn find_directive(record: &LogicalRecord) -> (directive: Directive)
    ensures
        directive == directive_of(record@),
{
    if record.tokens.len() == 0 {
        return Directive::Resource;
    }
    assert(record@.tokens[0] == record.tokens@[0]@);
    let first = lower_text(&record.tokens[0].raw);
    let first = first.as_str();
    if same_text(first, "$origin") {
        Directive::Origin
    } else if same_text(first, "$ttl") {
        Directive::Ttl
    } else if same_text(first, "$include") {
        Directive::Include
    } else if same_text(first, "$generate") {
        Directive::Generate
    } else if record.tokens[0].raw.len() > 0 && record.tokens[0].raw[0] == 0x24 {
        Directive::Unsupported
    } else {
        Directive::Resource
    }
}

/// A file that a record asks for, and the defaults that it is read with.
#[derive(Debug, Clone)]
pub struct Request {
    pub including: String,
    pub requested: String,
    pub defaults: Defaults,
}

impl View for Request {
    type V = Ask;

    open spec fn view(&self) -> Ask {
        Ask {
            including: self.including@,
            requested: self.requested@,
            setting: self.defaults@,
        }
    }
}

/// Reads a directive that asks for a file.
pub fn parse_include(path: &str, record: &LogicalRecord, defaults: &Defaults) -> (result: Result<
    Request,
    GateError,
>)
    ensures
        match result {
            Ok(request) => inclusion(path@, record@, defaults@) == Ok::<Ask, Problem>(request@),
            Err(error) => inclusion(path@, record@, defaults@) == Err::<Ask, Problem>(error@),
        },
{
    if record.tokens.len() < 2 || record.tokens.len() > 3 {
        return Err(
            at_record("E_DIRECTIVE", path, record, "$INCLUDE requires path and optional origin"),
        );
    }
    assert(record@.tokens[1] == record.tokens@[1]@);
    let requested = match ascii(&record.tokens[1], path) {
        Ok(chars) => crate::chars::text_of(&chars),
        Err(error) => {
            return Err(error);
        },
    };
    let mut inherited = defaults.copy();
    if record.tokens.len() == 3 {
        assert(record@.tokens[2] == record.tokens@[2]@);
        match canonical_name(&record.tokens[2], defaults.origin.as_str(), path) {
            Ok(origin) => {
                inherited.origin = origin;
                assert(inherited@ =~= Setting { origin: origin@, ..defaults@ });
            },
            Err(error) => {
                return Err(error);
            },
        }
    }
    Ok(Request { including: path.to_owned(), requested, defaults: inherited })
}

/// Reads one record of a file. What comes back is the file that it asks for, if
/// it asks for one.
pub fn parse_record(
    limits: &Limits,
    path: &str,
    record: &LogicalRecord,
    defaults: &mut Defaults,
    counted: &mut Counted,
) -> (result: Result<Option<Request>, GateError>)
    requires
        old(counted).records.sound(),
    ensures
        match result {
            Ok(None) => effect(*limits, path@, record@, old(defaults)@, old(counted)@) == Ok::<
                Effect,
                Problem,
            >(Effect::Kept(final(defaults)@, final(counted)@)) && final(counted).records.sound(),
            Ok(Some(request)) => effect(*limits, path@, record@, old(defaults)@, old(counted)@)
                == Ok::<Effect, Problem>(Effect::Included(request@)) && *final(defaults) == *old(
                defaults,
            ) && *final(counted) == *old(counted),
            Err(error) => effect(*limits, path@, record@, old(defaults)@, old(counted)@) == Err::<
                Effect,
                Problem,
            >(error@),
        },
{
    let ghost row = record@;
    match find_directive(record) {
        Directive::Origin => {
            if record.tokens.len() != 2 {
                return Err(
                    at_record("E_DIRECTIVE", path, record, "$ORIGIN requires one name"),
                );
            }
            assert(row.tokens[1] == record.tokens@[1]@);
            match canonical_name(&record.tokens[1], defaults.origin.as_str(), path) {
                Ok(origin) => {
                    let ghost before = defaults@;
                    defaults.origin = origin;
                    assert(defaults@ =~= Setting { origin: origin@, ..before });
                    Ok(None)
                },
                Err(error) => Err(error),
            }
        },
        Directive::Ttl => {
            if record.tokens.len() != 2 {
                return Err(at_record("E_DIRECTIVE", path, record, "$TTL requires one value"));
            }
            assert(row.tokens[1] == record.tokens@[1]@);
            match parse_ttl(&record.tokens[1], path) {
                Ok(ttl) => {
                    let ghost before = defaults@;
                    defaults.ttl = Some(ttl);
                    assert(defaults@ =~= Setting { ttl: Some(ttl), ..before });
                    Ok(None)
                },
                Err(error) => Err(error),
            }
        },
        Directive::Include => match parse_include(path, record, defaults) {
            Ok(request) => Ok(Some(request)),
            Err(error) => Err(error),
        },
        Directive::Generate => match parse_generate(limits, path, record, defaults, counted) {
            Ok(()) => Ok(None),
            Err(error) => Err(error),
        },
        Directive::Unsupported => Err(
            at_record("E_DIRECTIVE", path, record, "unsupported directive"),
        ),
        Directive::Resource => match parse_resource(limits, path, record, defaults, counted) {
            Ok(()) => Ok(None),
            Err(error) => Err(error),
        },
    }
}

} // verus!
