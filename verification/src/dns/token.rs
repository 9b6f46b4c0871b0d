//! Zone files cut into the tokens of logical records.

use vstd::prelude::*;
use crate::dns::problem;
use crate::dns::problem::{GateError, Problem};

verus! {

/// A field of a record: its bytes with their escapes, whether it was quoted, and
/// where it begins.
#[derive(Debug, Clone)]
pub struct Token {
    pub raw: Vec<u8>,
    pub quoted: bool,
    pub offset: usize,
}

/// A record over one line, or over several in parentheses.
#[derive(Debug, Clone)]
pub struct LogicalRecord {
    pub tokens: Vec<Token>,
    pub leading_whitespace: bool,
    pub offset: usize,
}

/// A token as plain values.
#[verifier::ext_equal]
pub struct Piece {
    pub raw: Seq<u8>,
    pub quoted: bool,
    pub offset: usize,
}

impl View for Token {
    type V = Piece;

    open spec fn view(&self) -> Piece {
        Piece { raw: self.raw@, quoted: self.quoted, offset: self.offset }
    }
}

pub open spec fn pieces(tokens: Seq<Token>) -> Seq<Piece> {
    tokens.map_values(|token: Token| token@)
}

/// A record as plain values.
#[verifier::ext_equal]
pub struct Row {
    pub tokens: Seq<Piece>,
    pub leading_whitespace: bool,
    pub offset: usize,
}

impl View for LogicalRecord {
    type V = Row;

    open spec fn view(&self) -> Row {
        Row {
            tokens: pieces(self.tokens@),
            leading_whitespace: self.leading_whitespace,
            offset: self.offset,
        }
    }
}

pub open spec fn rows(records: Seq<LogicalRecord>) -> Seq<Row> {
    records.map_values(|record: LogicalRecord| record@)
}

/// What has been read of a file.
#[verifier::ext_equal]
pub struct Scan {
    pub records: Seq<Row>,
    pub tokens: Seq<Piece>,
    pub token: Seq<u8>,
    pub token_start: usize,
    pub token_quoted: bool,
    pub in_quote: bool,
    pub in_comment: bool,
    pub parentheses: u32,
    pub record_offset: usize,
    pub leading_whitespace: bool,
}

pub open spec fn fresh_scan() -> Scan {
    Scan {
        records: Seq::empty(),
        tokens: Seq::empty(),
        token: Seq::empty(),
        token_start: 0,
        token_quoted: false,
        in_quote: false,
        in_comment: false,
        parentheses: 0,
        record_offset: 0,
        leading_whitespace: false,
    }
}

pub open spec fn token_finished(scan: Scan) -> Scan {
    if scan.token.len() > 0 || scan.token_quoted {
        Scan {
            tokens: scan.tokens.push(
                Piece {
                    raw: scan.token,
                    quoted: scan.token_quoted,
                    offset: scan.token_start,
                },
            ),
            token: Seq::empty(),
            token_quoted: false,
            ..scan
        }
    } else {
        Scan { token_quoted: false, ..scan }
    }
}

pub open spec fn record_finished(scan: Scan) -> Scan {
    let done = token_finished(scan);
    if done.tokens.len() > 0 {
        Scan {
            records: done.records.push(
                Row {
                    tokens: done.tokens,
                    leading_whitespace: done.leading_whitespace,
                    offset: done.record_offset,
                },
            ),
            tokens: Seq::empty(),
            ..done
        }
    } else {
        done
    }
}

/// The end of a line: it ends the record outside parentheses.
pub open spec fn line_finished(scan: Scan) -> Scan {
    if scan.parentheses == 0 {
        Scan { leading_whitespace: false, ..record_finished(scan) }
    } else {
        scan
    }
}

/// Where a token begins, if nothing of it has been read.
pub open spec fn token_begun(scan: Scan, index: usize, quoted: bool) -> Scan {
    if scan.token.len() == 0 {
        Scan {
            token_start: index,
            token_quoted: quoted,
            record_offset: if scan.tokens.len() == 0 {
                index
            } else {
                scan.record_offset
            },
            ..scan
        }
    } else {
        scan
    }
}

pub open spec fn byte_digit(byte: u8) -> bool {
    0x30 <= byte <= 0x39
}

/// The bytes that an escape takes up, the backslash included.
pub open spec fn escape_length(bytes: Seq<u8>, index: int) -> int {
    if index + 3 < bytes.len() && byte_digit(bytes[index + 1]) && byte_digit(bytes[index + 2])
        && byte_digit(bytes[index + 3]) {
        4
    } else {
        2
    }
}

/// What reading at a place comes to: the scan after it and where to go on.
pub type Stepped = Result<(Scan, int), Problem>;

pub open spec fn escape_read(path: Seq<char>, bytes: Seq<u8>, index: int, scan: Scan) -> Stepped {
    if index + 1 >= bytes.len() {
        Err(problem::problem("E_ESCAPE"@, path, index, "trailing escape"@))
    } else {
        let end = index + escape_length(bytes, index);
        Ok((Scan { token: scan.token + bytes.subrange(index, end), ..scan }, end))
    }
}

pub open spec fn quoted_read(path: Seq<char>, bytes: Seq<u8>, index: int, scan: Scan) -> Stepped {
    let byte = bytes[index];
    if byte == 0x5c {
        escape_read(path, bytes, index, scan)
    } else if byte == 0x22 {
        Ok((Scan { in_quote: false, ..scan }, index + 1))
    } else if byte == 0x0a {
        Err(
            problem::problem(
                "E_UNTERMINATED_QUOTE"@,
                path,
                scan.token_start as int,
                "quoted token crosses newline"@,
            ),
        )
    } else {
        Ok((Scan { token: scan.token.push(byte), ..scan }, index + 1))
    }
}

pub open spec fn plain_read(path: Seq<char>, bytes: Seq<u8>, index: int, scan: Scan) -> Stepped {
    let byte = bytes[index];
    if byte == 0x3b {
        Ok((Scan { in_comment: true, ..token_finished(scan) }, index + 1))
    } else if byte == 0x22 {
        Ok((Scan { in_quote: true, ..token_begun(scan, index as usize, true) }, index + 1))
    } else if byte == 0x5c {
        escape_read(path, bytes, index, token_begun(scan, index as usize, scan.token_quoted))
    } else if byte == 0x28 {
        if scan.parentheses == u32::MAX {
            Err(problem::problem("E_PAREN_DEPTH"@, path, index, "parenthesis depth overflow"@))
        } else {
            Ok(
                (
                    Scan { parentheses: (scan.parentheses + 1) as u32, ..token_finished(scan) },
                    index + 1,
                ),
            )
        }
    } else if byte == 0x29 {
        if scan.parentheses == 0 {
            Err(
                problem::problem(
                    "E_UNEXPECTED_PAREN"@,
                    path,
                    index,
                    "unexpected closing parenthesis"@,
                ),
            )
        } else {
            Ok(
                (
                    Scan { parentheses: (scan.parentheses - 1) as u32, ..token_finished(scan) },
                    index + 1,
                ),
            )
        }
    } else if byte == 0x0a {
        Ok((line_finished(token_finished(scan)), index + 1))
    } else if byte == 0x20 || byte == 0x09 || byte == 0x0d {
        let leading = scan.leading_whitespace || (scan.tokens.len() == 0 && scan.token.len() == 0
            && scan.parentheses == 0);
        Ok((Scan { leading_whitespace: leading, ..token_finished(scan) }, index + 1))
    } else {
        let begun = token_begun(scan, index as usize, false);
        Ok((Scan { token: begun.token.push(byte), ..begun }, index + 1))
    }
}

/// Reading at a place.
pub open spec fn byte_read(path: Seq<char>, bytes: Seq<u8>, index: int, scan: Scan) -> Stepped {
    let byte = bytes[index];
    if scan.in_comment {
        if byte == 0x0a {
            Ok((line_finished(Scan { in_comment: false, ..scan }), index + 1))
        } else {
            Ok((scan, index + 1))
        }
    } else if byte > 0x7f {
        Err(problem::problem("E_RAW_NON_ASCII"@, path, index, "raw non-ASCII input byte"@))
    } else if scan.in_quote {
        quoted_read(path, bytes, index, scan)
    } else {
        plain_read(path, bytes, index, scan)
    }
}

pub open spec fn scan_finished(path: Seq<char>, scan: Scan) -> Result<Seq<Row>, Problem> {
    if scan.in_quote {
        Err(
            problem::problem(
                "E_UNTERMINATED_QUOTE"@,
                path,
                scan.token_start as int,
                "unterminated quoted token"@,
            ),
        )
    } else if scan.parentheses != 0 {
        Err(
            problem::problem(
                "E_UNTERMINATED_PAREN"@,
                path,
                scan.record_offset as int,
                "unterminated parenthesized record"@,
            ),
        )
    } else {
        Ok(record_finished(scan).records)
    }
}

/// Reading from a place to the end.
pub open spec fn scanned(path: Seq<char>, bytes: Seq<u8>, index: int, scan: Scan) -> Result<
    Seq<Row>,
    Problem,
>
    decreases bytes.len() - index,
{
    if index >= bytes.len() {
        scan_finished(path, scan)
    } else {
        match byte_read(path, bytes, index, scan) {
            Ok((after, next)) => if next > index {
                scanned(path, bytes, next, after)
            } else {
                scan_finished(path, scan)
            },
            Err(error) => Err(error),
        }
    }
}

/// The records of a file, or why it cannot be read.
pub open spec fn tokens_of(path: Seq<char>, bytes: Seq<u8>) -> Result<Seq<Row>, Problem> {
    scanned(path, bytes, 0, fresh_scan())
}

struct Scanner {
    records: Vec<LogicalRecord>,
    tokens: Vec<Token>,
    token: Vec<u8>,
    token_start: usize,
    token_quoted: bool,
    in_quote: bool,
    in_comment: bool,
    parentheses: u32,
    record_offset: usize,
    leading_whitespace: bool,
}

impl View for Scanner {
    type V = Scan;

    closed spec fn view(&self) -> Scan {
        Scan {
            records: rows(self.records@),
            tokens: pieces(self.tokens@),
            token: self.token@,
            token_start: self.token_start,
            token_quoted: self.token_quoted,
            in_quote: self.in_quote,
            in_comment: self.in_comment,
            parentheses: self.parentheses,
            record_offset: self.record_offset,
            leading_whitespace: self.leading_whitespace,
        }
    }
}

impl Scanner {
    fn finish_token(&mut self)
        ensures
            final(self)@ == token_finished(old(self)@),
    {
        if self.token.len() > 0 || self.token_quoted {
            let mut raw: Vec<u8> = Vec::new();
            core::mem::swap(&mut raw, &mut self.token);
            let ghost before = self.tokens@;
            let token = Token { raw, quoted: self.token_quoted, offset: self.token_start };
            self.tokens.push(token);
            assert(pieces(self.tokens@) =~= pieces(before).push(token@));
        }
        self.token_quoted = false;
        assert(self@ =~= token_finished(old(self)@));
    }

    fn finish_record(&mut self)
        ensures
            final(self)@ == record_finished(old(self)@),
    {
        self.finish_token();
        let ghost done = self@;
        if self.tokens.len() > 0 {
            let mut tokens: Vec<Token> = Vec::new();
            core::mem::swap(&mut tokens, &mut self.tokens);
            let ghost before = self.records@;
            let record = LogicalRecord {
                tokens,
                leading_whitespace: self.leading_whitespace,
                offset: self.record_offset,
            };
            self.records.push(record);
            proof {
                assert(rows(self.records@) =~= rows(before).push(record@));
                assert(pieces(self.tokens@) =~= Seq::empty());
            }
        }
        assert(done.tokens.len() == 0 || self@ =~= record_finished(old(self)@));
    }

    fn finish_line(&mut self)
        ensures
            final(self)@ == line_finished(old(self)@),
    {
        if self.parentheses == 0 {
            self.finish_record();
            self.leading_whitespace = false;
        }
        assert(self@ =~= line_finished(old(self)@));
    }

    fn begin_token(&mut self, index: usize, quoted: bool)
        ensures
            final(self)@ == token_begun(old(self)@, index, quoted),
    {
        if self.token.len() == 0 {
            self.token_start = index;
            self.token_quoted = quoted;
            if self.tokens.len() == 0 {
                self.record_offset = index;
            }
        }
        assert(self@ =~= token_begun(old(self)@, index, quoted));
    }

    fn copy_escape(&mut self, path: &str, bytes: &[u8], index: usize) -> (result: Result<
        usize,
        GateError,
    >)
        requires
            index < bytes@.len(),
        ensures
            match result {
                Ok(next) => escape_read(path@, bytes@, index as int, old(self)@) == Ok::<
                    (Scan, int),
                    Problem,
                >((final(self)@, next as int)) && index < next <= bytes@.len(),
                Err(error) => escape_read(path@, bytes@, index as int, old(self)@) == Err::<
                    (Scan, int),
                    Problem,
                >(error@),
            },
    {
        let count: usize = bytes.len();
        if count - index <= 1 {
            return Err(GateError::new("E_ESCAPE", path, index as u64, "trailing escape"));
        }
        let ghost before = self.token@;
        if count - index > 3 && is_byte_digit(bytes[index + 1]) && is_byte_digit(bytes[index + 2])
            && is_byte_digit(bytes[index + 3]) {
            self.token.push(bytes[index]);
            self.token.push(bytes[index + 1]);
            self.token.push(bytes[index + 2]);
            self.token.push(bytes[index + 3]);
            proof {
                assert(self.token@ =~= before + bytes@.subrange(index as int, index + 4));
                assert(self@ =~= Scan {
                    token: before + bytes@.subrange(index as int, index + 4),
                    ..old(self)@
                });
            }
            Ok(index + 4)
        } else {
            self.token.push(bytes[index]);
            self.token.push(bytes[index + 1]);
            proof {
                assert(self.token@ =~= before + bytes@.subrange(index as int, index + 2));
                assert(self@ =~= Scan {
                    token: before + bytes@.subrange(index as int, index + 2),
                    ..old(self)@
                });
            }
            Ok(index + 2)
        }
    }

    fn read_quoted(&mut self, path: &str, bytes: &[u8], index: usize) -> (result: Result<
        usize,
        GateError,
    >)
        requires
            index < bytes@.len(),
        ensures
            match result {
                Ok(next) => quoted_read(path@, bytes@, index as int, old(self)@) == Ok::<
                    (Scan, int),
                    Problem,
                >((final(self)@, next as int)) && index < next <= bytes@.len(),
                Err(error) => quoted_read(path@, bytes@, index as int, old(self)@) == Err::<
                    (Scan, int),
                    Problem,
                >(error@),
            },
    {
        let byte = bytes[index];
        if byte == 0x5c {
            return self.copy_escape(path, bytes, index);
        }
        if byte == 0x22 {
            self.in_quote = false;
            assert(self@ =~= Scan { in_quote: false, ..old(self)@ });
        } else if byte == 0x0a {
            return Err(
                GateError::new(
                    "E_UNTERMINATED_QUOTE",
                    path,
                    self.token_start as u64,
                    "quoted token crosses newline",
                ),
            );
        } else {
            self.token.push(byte);
            assert(self@ =~= Scan { token: old(self)@.token.push(byte), ..old(self)@ });
        }
        Ok(index + 1)
    }

    fn read_plain(&mut self, path: &str, bytes: &[u8], index: usize) -> (result: Result<
        usize,
        GateError,
    >)
        requires
            index < bytes@.len(),
        ensures
            match result {
                Ok(next) => plain_read(path@, bytes@, index as int, old(self)@) == Ok::<
                    (Scan, int),
                    Problem,
                >((final(self)@, next as int)) && index < next <= bytes@.len(),
                Err(error) => plain_read(path@, bytes@, index as int, old(self)@) == Err::<
                    (Scan, int),
                    Problem,
                >(error@),
            },
    {
        let byte = bytes[index];
        if byte == 0x3b {
            self.finish_token();
            self.in_comment = true;
            assert(self@ =~= Scan { in_comment: true, ..token_finished(old(self)@) });
        } else if byte == 0x22 {
            self.begin_token(index, true);
            self.in_quote = true;
            assert(self@ =~= Scan { in_quote: true, ..token_begun(old(self)@, index, true) });
        } else if byte == 0x5c {
            let quoted = self.token_quoted;
            self.begin_token(index, quoted);
            return self.copy_escape(path, bytes, index);
        } else if byte == 0x28 {
            if self.parentheses == u32::MAX {
                return Err(
                    GateError::new(
                        "E_PAREN_DEPTH",
                        path,
                        index as u64,
                        "parenthesis depth overflow",
                    ),
                );
            }
            self.finish_token();
            self.parentheses = self.parentheses + 1;
            assert(self@ =~= Scan {
                parentheses: (old(self)@.parentheses + 1) as u32,
                ..token_finished(old(self)@)
            });
        } else if byte == 0x29 {
            if self.parentheses == 0 {
                return Err(
                    GateError::new(
                        "E_UNEXPECTED_PAREN",
                        path,
                        index as u64,
                        "unexpected closing parenthesis",
                    ),
                );
            }
            self.finish_token();
            self.parentheses = self.parentheses - 1;
            assert(self@ =~= Scan {
                parentheses: (old(self)@.parentheses - 1) as u32,
                ..token_finished(old(self)@)
            });
        } else if byte == 0x0a {
            self.finish_token();
            self.finish_line();
        } else if byte == 0x20 || byte == 0x09 || byte == 0x0d {
            if self.tokens.len() == 0 && self.token.len() == 0 && self.parentheses == 0 {
                self.leading_whitespace = true;
            }
            self.finish_token();
            assert(self@ =~= plain_read(path@, bytes@, index as int, old(self)@)->Ok_0.0);
        } else {
            self.begin_token(index, false);
            let ghost begun = self@;
            self.token.push(byte);
            assert(self@ =~= Scan { token: begun.token.push(byte), ..begun });
        }
        Ok(index + 1)
    }

    fn read_byte(&mut self, path: &str, bytes: &[u8], index: usize) -> (result: Result<
        usize,
        GateError,
    >)
        requires
            index < bytes@.len(),
        ensures
            match result {
                Ok(next) => byte_read(path@, bytes@, index as int, old(self)@) == Ok::<
                    (Scan, int),
                    Problem,
                >((final(self)@, next as int)) && index < next <= bytes@.len(),
                Err(error) => byte_read(path@, bytes@, index as int, old(self)@) == Err::<
                    (Scan, int),
                    Problem,
                >(error@),
            },
    {
        let byte = bytes[index];
        if self.in_comment {
            if byte == 0x0a {
                self.in_comment = false;
                assert(self@ =~= Scan { in_comment: false, ..old(self)@ });
                self.finish_line();
            }
            return Ok(index + 1);
        }
        if byte > 0x7f {
            return Err(
                GateError::new("E_RAW_NON_ASCII", path, index as u64, "raw non-ASCII input byte"),
            );
        }
        if self.in_quote {
            self.read_quoted(path, bytes, index)
        } else {
            self.read_plain(path, bytes, index)
        }
    }
}

pub fn is_byte_digit(byte: u8) -> (result: bool)
    ensures
        result == byte_digit(byte),
{
    0x30 <= byte && byte <= 0x39
}

/// Cuts a zone file into logical records.
pub fn tokenize(path: &str, bytes: &[u8]) -> (result: Result<Vec<LogicalRecord>, GateError>)
    ensures
        match result {
            Ok(records) => tokens_of(path@, bytes@) == Ok::<Seq<Row>, Problem>(rows(records@)),
            Err(error) => tokens_of(path@, bytes@) == Err::<Seq<Row>, Problem>(error@),
        },
{
    let mut scanner = Scanner {
        records: Vec::new(),
        tokens: Vec::new(),
        token: Vec::new(),
        token_start: 0,
        token_quoted: false,
        in_quote: false,
        in_comment: false,
        parentheses: 0,
        record_offset: 0,
        leading_whitespace: false,
    };
    let mut index: usize = 0;
    assert(scanner@ =~= fresh_scan());
    while index < bytes.len()
        invariant
            index <= bytes@.len(),
            scanned(path@, bytes@, index as int, scanner@) == tokens_of(path@, bytes@),
        decreases bytes@.len() - index,
    {
        index = match scanner.read_byte(path, bytes, index) {
            Ok(next) => next,
            Err(error) => {
                return Err(error);
            },
        };
    }
    if scanner.in_quote {
        return Err(
            GateError::new(
                "E_UNTERMINATED_QUOTE",
                path,
                scanner.token_start as u64,
                "unterminated quoted token",
            ),
        );
    }
    if scanner.parentheses != 0 {
        return Err(
            GateError::new(
                "E_UNTERMINATED_PAREN",
                path,
                scanner.record_offset as u64,
                "unterminated parenthesized record",
            ),
        );
    }
    scanner.finish_record();
    Ok(scanner.records)
}

} // verus!
