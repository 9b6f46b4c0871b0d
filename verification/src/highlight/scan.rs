//! Tokens of one line, from the state in which the line before it ended.

use vstd::prelude::*;
use crate::chars;
use crate::chars::width_of;

verus! {

#[derive(Debug, Clone, Copy, PartialEq, Eq, Structural)]
pub enum TokenKind {
    Identifier,
    Number,
    Punctuation,
    Whitespace,
    LineComment,
    String,
    BlockComment,
}

/// A token, its ends counted in bytes from the start of its line.
#[derive(Debug, Clone, Copy, PartialEq, Eq, Structural)]
pub struct RelativeToken {
    pub kind: TokenKind,
    pub start: usize,
    pub end: usize,
}

/// What a line leaves open for the next: an unfinished string or block comment
/// and where it was opened, counted in bytes from the start of the document.
#[derive(Debug, Clone, Copy, PartialEq, Eq, Structural)]
pub enum LexState {
    Normal,
    String { escaped: bool, start: usize },
    BlockComment { start: usize },
}

/// A state as plain values.
pub enum Mode {
    Normal,
    Quoted { escaped: bool, start: nat },
    Commented { start: nat },
}

impl View for LexState {
    type V = Mode;

    open spec fn view(&self) -> Mode {
        match self {
            LexState::Normal => Mode::Normal,
            LexState::String { escaped, start } => Mode::Quoted {
                escaped: *escaped,
                start: *start as nat,
            },
            LexState::BlockComment { start } => Mode::Commented { start: *start as nat },
        }
    }
}

/// A token as plain values.
pub struct Span {
    pub kind: TokenKind,
    pub start: nat,
    pub end: nat,
}

impl View for RelativeToken {
    type V = Span;

    open spec fn view(&self) -> Span {
        Span { kind: self.kind, start: self.start as nat, end: self.end as nat }
    }
}

pub open spec fn spans(tokens: Seq<RelativeToken>) -> Seq<Span> {
    tokens.map_values(|token: RelativeToken| token@)
}

/// A line ending begins at character `i`.
pub open spec fn at_line_end(line: Seq<char>, i: int) -> bool {
    line[i] == '\n' || (line[i] == '\r' && i + 1 < line.len() && line[i + 1] == '\n')
}

pub open spec fn begins_identifier(c: char) -> bool {
    c == '_' || chars::alphabetic(c)
}

pub open spec fn continues_identifier(c: char) -> bool {
    c == '_' || chars::alphanumeric(c)
}

/// What a token of one kind goes on with.
pub open spec fn goes_on(kind: TokenKind, line: Seq<char>, i: int) -> bool {
    match kind {
        TokenKind::Whitespace => chars::whitespace(line[i]),
        TokenKind::LineComment => !at_line_end(line, i),
        TokenKind::Identifier => continues_identifier(line[i]),
        TokenKind::Number => chars::is_digit(line[i]),
        _ => false,
    }
}

/// Where a token that has reached character `i` ends.
pub open spec fn run_end(kind: TokenKind, line: Seq<char>, i: int) -> int
    decreases line.len() - i,
{
    if 0 <= i < line.len() && goes_on(kind, line, i) {
        run_end(kind, line, i + 1)
    } else {
        i
    }
}

/// How far an open construct reaches.
pub struct Reach {
    pub end: int,
    pub closed: bool,
    pub escaped: bool,
}

/// How far a string reaches from character `i`.
pub open spec fn quoted_reach(line: Seq<char>, i: int, escaped: bool) -> Reach
    decreases line.len() - i,
{
    if i >= line.len() {
        Reach { end: i, closed: false, escaped }
    } else if escaped {
        quoted_reach(line, i + 1, false)
    } else if line[i] == '\\' {
        quoted_reach(line, i + 1, true)
    } else if line[i] == '"' {
        Reach { end: i + 1, closed: true, escaped: false }
    } else {
        quoted_reach(line, i + 1, false)
    }
}

/// How far a block comment reaches from character `i`.
pub open spec fn commented_reach(line: Seq<char>, i: int) -> Reach
    decreases line.len() - i,
{
    if i >= line.len() {
        Reach { end: i, closed: false, escaped: false }
    } else if line[i] == '*' && i + 1 < line.len() && line[i + 1] == '/' {
        Reach { end: i + 2, closed: true, escaped: false }
    } else {
        commented_reach(line, i + 1)
    }
}

/// A token by its last character, and the state after it.
pub struct Lexeme {
    pub kind: TokenKind,
    pub end: int,
    pub mode: Mode,
}

pub open spec fn quoted_lexeme(reach: Reach, start: nat) -> Lexeme {
    Lexeme {
        kind: TokenKind::String,
        end: reach.end,
        mode: if reach.closed {
            Mode::Normal
        } else {
            Mode::Quoted { escaped: reach.escaped, start }
        },
    }
}

pub open spec fn commented_lexeme(reach: Reach, start: nat) -> Lexeme {
    Lexeme {
        kind: TokenKind::BlockComment,
        end: reach.end,
        mode: if reach.closed {
            Mode::Normal
        } else {
            Mode::Commented { start }
        },
    }
}

/// The kind of a token that is neither a string nor a block comment, by the
/// character with which it begins.
pub open spec fn plain_kind(line: Seq<char>, i: int) -> TokenKind {
    if at_line_end(line, i) || chars::whitespace(line[i]) {
        TokenKind::Whitespace
    } else if line[i] == '#' {
        TokenKind::LineComment
    } else if begins_identifier(line[i]) {
        TokenKind::Identifier
    } else if chars::is_digit(line[i]) {
        TokenKind::Number
    } else {
        TokenKind::Punctuation
    }
}

pub open spec fn opens_comment(line: Seq<char>, i: int) -> bool {
    line[i] == '/' && i + 1 < line.len() && line[i + 1] == '*'
}

pub open spec fn is_blank(line: Seq<char>, i: int) -> bool {
    at_line_end(line, i) || chars::whitespace(line[i])
}

/// The token that begins at character `i` of a line at byte `base` of the document.
#[verifier::opaque]
pub open spec fn lexeme(line: Seq<char>, base: nat, i: int, mode: Mode) -> Lexeme {
    let here = base + chars::size(line.take(i));
    match mode {
        Mode::Quoted { escaped, start } => quoted_lexeme(quoted_reach(line, i, escaped), start),
        Mode::Commented { start } => commented_lexeme(commented_reach(line, i), start),
        Mode::Normal => if !is_blank(line, i) && opens_comment(line, i) {
            commented_lexeme(commented_reach(line, i + 2), here)
        } else if !is_blank(line, i) && line[i] == '"' {
            quoted_lexeme(quoted_reach(line, i + 1, false), here)
        } else {
            let kind = plain_kind(line, i);
            Lexeme { kind, end: run_end(kind, line, i + 1), mode: Mode::Normal }
        },
    }
}

/// The tokens of a line from some character on, and the state after it.
#[verifier::ext_equal]
pub struct Scan {
    pub tokens: Seq<Span>,
    pub mode: Mode,
}

pub open spec fn scan(line: Seq<char>, base: nat, i: int, mode: Mode) -> Scan
    decreases line.len() - i,
{
    let next = lexeme(line, base, i, mode);
    if i >= line.len() || next.end <= i || next.end > line.len() {
        Scan { tokens: Seq::empty(), mode }
    } else {
        let rest = scan(line, base, next.end, next.mode);
        Scan {
            tokens: seq![
                Span {
                    kind: next.kind,
                    start: chars::size(line.take(i)),
                    end: chars::size(line.take(next.end)),
                },
            ] + rest.tokens,
            mode: rest.mode,
        }
    }
}

pub proof fn lemma_run_end(kind: TokenKind, line: Seq<char>, i: int)
    requires
        0 <= i <= line.len(),
    ensures
        i <= run_end(kind, line, i) <= line.len(),
    decreases line.len() - i,
{
    if i < line.len() && goes_on(kind, line, i) {
        lemma_run_end(kind, line, i + 1);
    }
}

pub proof fn lemma_quoted_reach(line: Seq<char>, i: int, escaped: bool)
    requires
        0 <= i <= line.len(),
    ensures
        i <= quoted_reach(line, i, escaped).end <= line.len(),
        i < line.len() ==> i < quoted_reach(line, i, escaped).end,
        !quoted_reach(line, i, escaped).closed ==> quoted_reach(line, i, escaped).end == line.len(),
    decreases line.len() - i,
{
    if i < line.len() {
        lemma_quoted_reach(line, i + 1, false);
        lemma_quoted_reach(line, i + 1, true);
    }
}

pub proof fn lemma_commented_reach(line: Seq<char>, i: int)
    requires
        0 <= i <= line.len(),
    ensures
        i <= commented_reach(line, i).end <= line.len(),
        i < line.len() ==> i < commented_reach(line, i).end,
        !commented_reach(line, i).closed ==> commented_reach(line, i).end == line.len(),
    decreases line.len() - i,
{
    if i < line.len() {
        lemma_commented_reach(line, i + 1);
    }
}

/// Every token has a character, and ends within its line.
pub proof fn lemma_lexeme(line: Seq<char>, base: nat, i: int, mode: Mode)
    requires
        0 <= i < line.len(),
    ensures
        i < lexeme(line, base, i, mode).end <= line.len(),
{
    reveal(lexeme);
    lemma_commented_reach(line, i);
    if i + 2 <= line.len() {
        lemma_commented_reach(line, i + 2);
    }
    lemma_quoted_reach(line, i + 1, false);
    match mode {
        Mode::Quoted { escaped, .. } => lemma_quoted_reach(line, i, escaped),
        _ => {},
    }
    lemma_run_end(plain_kind(line, i), line, i + 1);
}

/// Where each character begins, and the end, in bytes.
fn offsets_of(line: &Vec<char>) -> (offsets: Vec<usize>)
    requires
        chars::size(line@) <= usize::MAX,
    ensures
        offsets@.len() == line@.len() + 1,
        forall|i: int|
            0 <= i < offsets@.len() ==> (#[trigger] offsets@[i]) == chars::size(line@.take(i)),
{
    let mut offsets: Vec<usize> = Vec::new();
    let mut at: usize = 0;
    let mut i: usize = 0;
    assert(line@.take(0) =~= Seq::<char>::empty());
    while i < line.len()
        invariant
            i <= line@.len(),
            chars::size(line@) <= usize::MAX,
            at == chars::size(line@.take(i as int)),
            offsets@.len() == i,
            forall|j: int| 0 <= j < i ==> (#[trigger] offsets@[j]) == chars::size(line@.take(j)),
        decreases line@.len() - i,
    {
        offsets.push(at);
        proof {
            chars::lemma_size_take(line@, i + 1, i + 1);
            assert(line@.take(i + 1) =~= line@.take(i as int).push(line@[i as int]));
            chars::lemma_size_push(line@.take(i as int), line@[i as int]);
        }
        at = at + width_of(line[i]);
        i = i + 1;
    }
    offsets.push(at);
    offsets
}

fn is_line_end(line: &Vec<char>, i: usize) -> (result: bool)
    requires
        i < line@.len(),
    ensures
        result == at_line_end(line@, i as int),
{
    line[i] == '\n' || (line[i] == '\r' && i < line.len() - 1 && line[i + 1] == '\n')
}

fn is_identifier_start(character: char) -> (result: bool)
    ensures
        result == begins_identifier(character),
{
    character == '_' || character.is_alphabetic()
}

fn is_identifier_continue(character: char) -> (result: bool)
    ensures
        result == continues_identifier(character),
{
    character == '_' || character.is_alphanumeric()
}

fn continues(kind: TokenKind, line: &Vec<char>, i: usize) -> (result: bool)
    requires
        i < line@.len(),
    ensures
        result == goes_on(kind, line@, i as int),
{
    match kind {
        TokenKind::Whitespace => line[i].is_whitespace(),
        TokenKind::LineComment => !is_line_end(line, i),
        TokenKind::Identifier => is_identifier_continue(line[i]),
        TokenKind::Number => '0' <= line[i] && line[i] <= '9',
        _ => false,
    }
}

fn scan_run(kind: TokenKind, line: &Vec<char>, from: usize) -> (end: usize)
    requires
        from <= line@.len(),
    ensures
        end == run_end(kind, line@, from as int),
{
    let mut end: usize = from;
    while end < line.len() && continues(kind, line, end)
        invariant
            from <= end <= line@.len(),
            run_end(kind, line@, end as int) == run_end(kind, line@, from as int),
        decreases line@.len() - end,
    {
        end = end + 1;
    }
    end
}

fn scan_string(line: &Vec<char>, from: usize, open_escape: bool) -> (reach: (usize, bool, bool))
    requires
        from <= line@.len(),
    ensures
        (Reach { end: reach.0 as int, closed: reach.1, escaped: reach.2 }) == quoted_reach(
            line@,
            from as int,
            open_escape,
        ),
{
    let mut cursor: usize = from;
    let mut escaped = open_escape;
    while cursor < line.len()
        invariant
            cursor <= line@.len(),
            quoted_reach(line@, cursor as int, escaped) == quoted_reach(
                line@,
                from as int,
                open_escape,
            ),
        decreases line@.len() - cursor,
    {
        if escaped {
            escaped = false;
        } else if line[cursor] == '\\' {
            escaped = true;
        } else if line[cursor] == '"' {
            return (cursor + 1, true, false);
        }
        cursor = cursor + 1;
    }
    (cursor, false, escaped)
}

fn scan_block_comment(line: &Vec<char>, from: usize) -> (reach: (usize, bool))
    requires
        from <= line@.len(),
    ensures
        (Reach { end: reach.0 as int, closed: reach.1, escaped: false }) == commented_reach(
            line@,
            from as int,
        ),
{
    let mut cursor: usize = from;
    while cursor < line.len()
        invariant
            cursor <= line@.len(),
            commented_reach(line@, cursor as int) == commented_reach(line@, from as int),
        decreases line@.len() - cursor,
    {
        if line[cursor] == '*' && cursor < line.len() - 1 && line[cursor + 1] == '/' {
            return (cursor + 2, true);
        }
        cursor = cursor + 1;
    }
    (cursor, false)
}

/// The kind, end and following state of the token at `cursor`.
fn next_token(
    line: &Vec<char>,
    offsets: &Vec<usize>,
    base: usize,
    cursor: usize,
    state: LexState,
) -> (token: (TokenKind, usize, LexState))
    requires
        cursor < line@.len(),
        base + chars::size(line@) <= usize::MAX,
        offsets@.len() == line@.len() + 1,
        forall|i: int|
            0 <= i < offsets@.len() ==> (#[trigger] offsets@[i]) == chars::size(line@.take(i)),
    ensures
        (Lexeme { kind: token.0, end: token.1 as int, mode: token.2@ }) == lexeme(
            line@,
            base as nat,
            cursor as int,
            state@,
        ),
        cursor < token.1 <= line@.len(),
{
    proof {
        reveal(lexeme);
        lemma_lexeme(line@, base as nat, cursor as int, state@);
        chars::lemma_size_take(line@, cursor as int, cursor as int);
    }
    let count: usize = line.len();
    assert(cursor < count);
    match state {
        LexState::String { escaped, start } => {
            let (end, closed, next_escaped) = scan_string(line, cursor, escaped);
            let after = if closed {
                LexState::Normal
            } else {
                LexState::String { escaped: next_escaped, start }
            };
            (TokenKind::String, end, after)
        },
        LexState::BlockComment { start } => {
            let (end, closed) = scan_block_comment(line, cursor);
            let after = if closed {
                LexState::Normal
            } else {
                LexState::BlockComment { start }
            };
            (TokenKind::BlockComment, end, after)
        },
        LexState::Normal => {
            let here = line[cursor];
            let blank = is_line_end(line, cursor) || here.is_whitespace();
            if !blank && here == '/' && cursor < line.len() - 1 && line[cursor + 1] == '*' {
                let (end, closed) = scan_block_comment(line, cursor + 2);
                let after = if closed {
                    LexState::Normal
                } else {
                    LexState::BlockComment { start: base + offsets[cursor] }
                };
                (TokenKind::BlockComment, end, after)
            } else if !blank && here == '"' {
                let (end, closed, escaped) = scan_string(line, cursor + 1, false);
                let after = if closed {
                    LexState::Normal
                } else {
                    LexState::String { escaped, start: base + offsets[cursor] }
                };
                (TokenKind::String, end, after)
            } else {
                let kind = if blank {
                    TokenKind::Whitespace
                } else if here == '#' {
                    TokenKind::LineComment
                } else if is_identifier_start(here) {
                    TokenKind::Identifier
                } else if '0' <= here && here <= '9' {
                    TokenKind::Number
                } else {
                    TokenKind::Punctuation
                };
                (kind, scan_run(kind, line, cursor + 1), LexState::Normal)
            }
        },
    }
}

/// Scans one line that begins at byte `base` of the document.
pub fn scan_line(line: &Vec<char>, base: usize, incoming: LexState) -> (scanned: (
    Vec<RelativeToken>,
    LexState,
))
    requires
        base + chars::size(line@) <= usize::MAX,
    ensures
        (Scan { tokens: spans(scanned.0@), mode: scanned.1@ }) == scan(
            line@,
            base as nat,
            0,
            incoming@,
        ),
{
    let offsets = offsets_of(line);
    let mut tokens: Vec<RelativeToken> = Vec::new();
    let mut state = incoming;
    let mut cursor: usize = 0;
    let ghost whole = scan(line@, base as nat, 0, incoming@);
    assert(spans(tokens@) + whole.tokens =~= whole.tokens);
    while cursor < line.len()
        invariant
            cursor <= line@.len(),
            base + chars::size(line@) <= usize::MAX,
            offsets@.len() == line@.len() + 1,
            forall|i: int|
                0 <= i < offsets@.len() ==> (#[trigger] offsets@[i]) == chars::size(line@.take(i)),
            whole.tokens == spans(tokens@) + scan(line@, base as nat, cursor as int, state@).tokens,
            whole.mode == scan(line@, base as nat, cursor as int, state@).mode,
        decreases line@.len() - cursor,
    {
        let ghost before = tokens@;
        let ghost at = scan(line@, base as nat, cursor as int, state@);
        let (kind, end, after) = next_token(line, &offsets, base, cursor, state);
        let token = RelativeToken { kind, start: offsets[cursor], end: offsets[end] };
        tokens.push(token);
        proof {
            let rest = scan(line@, base as nat, end as int, after@);
            assert(at.tokens == seq![token@] + rest.tokens);
            assert(spans(tokens@) =~= spans(before).push(token@));
            assert(spans(before) + (seq![token@] + rest.tokens) =~= spans(before).push(token@)
                + rest.tokens);
        }
        cursor = end;
        state = after;
    }
    proof {
        assert(scan(line@, base as nat, cursor as int, state@).tokens =~= Seq::<Span>::empty());
        assert(whole.tokens =~= spans(tokens@));
    }
    (tokens, state)
}

} // verus!
