//! Lexing a whole document, and checking that tokens cover it.

use vstd::prelude::*;
use crate::chars;
use crate::chars::{chars_of, text_size};
use crate::highlight::lines;
use crate::highlight::lines::line_slices;
use crate::highlight::scan;
use crate::highlight::scan::{scan_line, LexState, Mode, RelativeToken, Span, TokenKind};
use crate::text;
use crate::text::push_decimal;
use vstd::string::StringSliceAdditionalSpecFns;

verus! {

/// A token, its ends counted in bytes from the start of the document.
#[derive(Debug, Clone, Copy, PartialEq, Eq, Structural)]
pub struct Token {
    pub kind: TokenKind,
    pub start: usize,
    pub end: usize,
}

#[derive(Debug, Clone, Copy, PartialEq, Eq, Structural)]
pub enum DiagnosticKind {
    UnterminatedString,
    UnterminatedBlockComment,
}

#[derive(Debug, Clone, Copy, PartialEq, Eq, Structural)]
pub struct Diagnostic {
    pub kind: DiagnosticKind,
    pub start: usize,
    pub end: usize,
}

#[derive(Debug, Clone, PartialEq, Eq)]
pub struct LexResult {
    pub tokens: Vec<Token>,
    pub final_state: LexState,
    pub diagnostics: Vec<Diagnostic>,
}

impl View for Token {
    type V = Span;

    open spec fn view(&self) -> Span {
        Span { kind: self.kind, start: self.start as nat, end: self.end as nat }
    }
}

/// A diagnostic as plain values.
pub struct Complaint {
    pub kind: DiagnosticKind,
    pub start: nat,
    pub end: nat,
}

impl View for Diagnostic {
    type V = Complaint;

    open spec fn view(&self) -> Complaint {
        Complaint { kind: self.kind, start: self.start as nat, end: self.end as nat }
    }
}

/// What lexing a document yields, as plain values.
#[verifier::ext_equal]
pub struct Lexed {
    pub tokens: Seq<Span>,
    pub mode: Mode,
    pub complaints: Seq<Complaint>,
}

impl View for LexResult {
    type V = Lexed;

    open spec fn view(&self) -> Lexed {
        Lexed {
            tokens: token_spans(self.tokens@),
            mode: self.final_state@,
            complaints: self.diagnostics@.map_values(|diagnostic: Diagnostic| diagnostic@),
        }
    }
}

pub open spec fn token_spans(tokens: Seq<Token>) -> Seq<Span> {
    tokens.map_values(|token: Token| token@)
}

/// The state in which line `k` begins.
pub open spec fn mode_at(document: Seq<Seq<char>>, k: int) -> Mode
    decreases k,
{
    if k <= 0 {
        Mode::Normal
    } else {
        scan::scan(
            document[k - 1],
            lines::start_of(document, k - 1),
            0,
            mode_at(document, k - 1),
        ).mode
    }
}

/// What scanning line `k` yields.
pub open spec fn scan_at(document: Seq<Seq<char>>, k: int) -> scan::Scan {
    scan::scan(document[k], lines::start_of(document, k), 0, mode_at(document, k))
}

pub open spec fn shifted(span: Span, by: nat) -> Span {
    Span { kind: span.kind, start: span.start + by, end: span.end + by }
}

/// The tokens of line `k`, counted from the start of the document.
pub open spec fn placed_tokens(document: Seq<Seq<char>>, k: int) -> Seq<Span> {
    scan_at(document, k).tokens.map_values(
        |span: Span| shifted(span, lines::start_of(document, k)),
    )
}

/// The tokens of the first `n` lines.
pub open spec fn tokens_before(document: Seq<Seq<char>>, n: nat) -> Seq<Span>
    decreases n,
{
    if n == 0 {
        Seq::empty()
    } else {
        tokens_before(document, (n - 1) as nat) + placed_tokens(document, n - 1)
    }
}

/// What an unfinished construct is reported as.
pub open spec fn complaints_of(mode: Mode, end: nat) -> Seq<Complaint> {
    match mode {
        Mode::Normal => Seq::empty(),
        Mode::Quoted { start, .. } => seq![
            Complaint { kind: DiagnosticKind::UnterminatedString, start, end },
        ],
        Mode::Commented { start } => seq![
            Complaint { kind: DiagnosticKind::UnterminatedBlockComment, start, end },
        ],
    }
}

/// What lexing lines yields.
pub open spec fn lexed_lines(document: Seq<Seq<char>>) -> Lexed {
    let mode = mode_at(document, document.len() as int);
    Lexed {
        tokens: tokens_before(document, document.len()),
        mode,
        complaints: complaints_of(mode, chars::size(lines::flat(document))),
    }
}

/// What lexing a document yields.
pub open spec fn lexed(document: Seq<char>) -> Lexed {
    lexed_lines(lines::lines_of(document))
}

/// Appends the tokens of one line, counted from the start of the document.
pub fn place_tokens(tokens: &mut Vec<Token>, relative: &Vec<RelativeToken>, base: usize)
    requires
        forall|i: int|
            0 <= i < relative@.len() ==> (#[trigger] relative@[i]).start <= relative@[i].end
                && base + relative@[i].end <= usize::MAX,
    ensures
        token_spans(final(tokens)@) == token_spans(old(tokens)@) + scan::spans(
            relative@,
        ).map_values(|span: Span| shifted(span, base as nat)),
{
    let ghost before = token_spans(tokens@);
    let ghost wanted = scan::spans(relative@).map_values(|span: Span| shifted(span, base as nat));
    let mut i: usize = 0;
    assert(before =~= before + wanted.take(0));
    while i < relative.len()
        invariant
            i <= relative@.len(),
            forall|i: int|
                0 <= i < relative@.len() ==> (#[trigger] relative@[i]).start <= relative@[i].end
                    && base + relative@[i].end <= usize::MAX,
            wanted == scan::spans(relative@).map_values(|span: Span| shifted(span, base as nat)),
            token_spans(tokens@) == before + wanted.take(i as int),
        decreases relative@.len() - i,
    {
        let token = &relative[i];
        let ghost earlier = tokens@;
        tokens.push(
            Token { kind: token.kind, start: base + token.start, end: base + token.end },
        );
        proof {
            assert(token_spans(tokens@) =~= token_spans(earlier).push(wanted[i as int]));
            assert(token_spans(tokens@) =~= before + wanted.take(i + 1));
        }
        i = i + 1;
    }
    assert(wanted.take(relative@.len() as int) =~= wanted);
}

/// Tokens of a line stand within it.
pub proof fn lemma_spans_within(line: Seq<char>, base: nat, i: int, mode: Mode)
    requires
        0 <= i <= line.len(),
    ensures
        forall|k: int|
            0 <= k < scan::scan(line, base, i, mode).tokens.len() ==> (#[trigger] scan::scan(
                line,
                base,
                i,
                mode,
            ).tokens[k]).start <= scan::scan(line, base, i, mode).tokens[k].end && scan::scan(
                line,
                base,
                i,
                mode,
            ).tokens[k].end <= chars::size(line),
    decreases line.len() - i,
{
    if i < line.len() {
        let next = scan::lexeme(line, base, i, mode);
        scan::lemma_lexeme(line, base, i, mode);
        lemma_spans_within(line, base, next.end, next.mode);
        chars::lemma_size_take(line, i, next.end);
        let whole = scan::scan(line, base, i, mode);
        let rest = scan::scan(line, base, next.end, next.mode);
        assert forall|k: int| 0 <= k < whole.tokens.len() implies (#[trigger] whole.tokens[k]).start
            <= whole.tokens[k].end && whole.tokens[k].end <= chars::size(line) by {
            if k > 0 {
                assert(whole.tokens[k] == rest.tokens[k - 1]);
            }
        }
    }
}

pub fn diagnostics(state: LexState, document_len: usize) -> (found: Vec<Diagnostic>)
    ensures
        found@.map_values(|diagnostic: Diagnostic| diagnostic@) == complaints_of(
            state@,
            document_len as nat,
        ),
{
    let mut found: Vec<Diagnostic> = Vec::new();
    match state {
        LexState::Normal => {},
        LexState::String { start, .. } => {
            found.push(
                Diagnostic { kind: DiagnosticKind::UnterminatedString, start, end: document_len },
            );
        },
        LexState::BlockComment { start } => {
            found.push(
                Diagnostic {
                    kind: DiagnosticKind::UnterminatedBlockComment,
                    start,
                    end: document_len,
                },
            );
        },
    }
    assert(found@.map_values(|diagnostic: Diagnostic| diagnostic@) =~= complaints_of(
        state@,
        document_len as nat,
    ));
    found
}

/// Lexes a document from its first character to its last.
pub fn full_lex(document: &str) -> (result: LexResult)
    ensures
        result@ == lexed(document@),
{
    let length: usize = text_size(document);
    let all = line_slices(&chars_of(document));
    let ghost shown = lines::lines_of(document@);
    proof {
        lines::lemma_lines_split(document@);
    }
    let mut tokens: Vec<Token> = Vec::new();
    let mut state = LexState::Normal;
    let mut base: usize = 0;
    let mut k: usize = 0;
    assert(token_spans(tokens@) =~= tokens_before(shown, 0));
    proof {
        lines::lemma_start(shown, 0);
    }
    while k < all.len()
        invariant
            k <= all@.len() == shown.len(),
            lines::texts(all@) == shown,
            length == chars::size(lines::flat(shown)),
            base == lines::start_of(shown, k as int),
            state@ == mode_at(shown, k as int),
            token_spans(tokens@) == tokens_before(shown, k as nat),
        decreases all@.len() - k,
    {
        proof {
            lines::lemma_start(shown, k as int);
            assert(shown[k as int] == all@[k as int]@);
            lemma_spans_within(
                shown[k as int],
                lines::start_of(shown, k as int),
                0,
                mode_at(shown, k as int),
            );
        }
        let (relative, outgoing) = scan_line(&all[k], base, state);
        proof {
            let found = scan_at(shown, k as int);
            assert forall|i: int| 0 <= i < relative@.len() implies (
            #[trigger] relative@[i]).start <= relative@[i].end && base + relative@[i].end
                <= usize::MAX by {
                assert(found.tokens[i] == relative@[i]@);
            }
        }
        place_tokens(&mut tokens, &relative, base);
        state = outgoing;
        let ended: usize = line_size(&all[k]);
        base = base + ended;
        k = k + 1;
    }
    LexResult { diagnostics: diagnostics(state, length), final_state: state, tokens }
}

/// The bytes that a line takes.
pub fn line_size(line: &Vec<char>) -> (bytes: usize)
    requires
        chars::size(line@) <= usize::MAX,
    ensures
        bytes == chars::size(line@),
{
    let mut bytes: usize = 0;
    let mut i: usize = 0;
    assert(line@.take(0) =~= Seq::<char>::empty());
    while i < line.len()
        invariant
            i <= line@.len(),
            chars::size(line@) <= usize::MAX,
            bytes == chars::size(line@.take(i as int)),
        decreases line@.len() - i,
    {
        proof {
            chars::lemma_size_take(line@, i + 1, i + 1);
            assert(line@.take(i + 1) =~= line@.take(i as int).push(line@[i as int]));
            chars::lemma_size_push(line@.take(i as int), line@[i as int]);
        }
        bytes = bytes + chars::width_of(line[i]);
        i = i + 1;
    }
    assert(line@.take(line@.len() as int) =~= line@);
    bytes
}

/// What is wrong with a token, where the tokens before it end at `cursor`.
pub open spec fn token_fault(document: Seq<char>, span: Span, cursor: nat) -> Option<Seq<char>> {
    if span.start != cursor || span.end <= span.start || span.end > chars::size(document) {
        Some(
            "invalid token range "@ + text::decimal(span.start) + ".."@ + text::decimal(span.end)
                + " after "@ + text::decimal(cursor),
        )
    } else if !chars::boundary(document, span.start as int) || !chars::boundary(
        document,
        span.end as int,
    ) {
        Some(
            "token splits UTF-8 at "@ + text::decimal(span.start) + ".."@ + text::decimal(span.end),
        )
    } else {
        None
    }
}

/// Where the first `n` tokens end.
pub open spec fn covered(tokens: Seq<Span>, n: nat) -> nat {
    if n == 0 {
        0
    } else {
        tokens[n - 1].end
    }
}

/// The first thing wrong with the first `n` tokens.
pub open spec fn first_token_fault(document: Seq<char>, tokens: Seq<Span>, n: nat) -> Option<Seq<char>>
    decreases n,
{
    if n == 0 {
        None
    } else {
        match first_token_fault(document, tokens, (n - 1) as nat) {
            Some(fault) => Some(fault),
            None => token_fault(document, tokens[n - 1], covered(tokens, (n - 1) as nat)),
        }
    }
}

/// Why tokens do not cover a document, if they do not.
pub open spec fn coverage_fault(document: Seq<char>, tokens: Seq<Span>) -> Option<Seq<char>> {
    match first_token_fault(document, tokens, tokens.len()) {
        Some(fault) => Some(fault),
        None => if covered(tokens, tokens.len()) != chars::size(document) {
            Some(
                "tokens cover "@ + text::decimal(covered(tokens, tokens.len())) + " of "@
                    + text::decimal(chars::size(document)) + " bytes"@,
            )
        } else {
            None
        },
    }
}

proof fn lemma_fault_stays(document: Seq<char>, tokens: Seq<Span>, n: nat, m: nat)
    requires
        n <= m,
        first_token_fault(document, tokens, n) is Some,
    ensures
        first_token_fault(document, tokens, m) == first_token_fault(document, tokens, n),
    decreases m,
{
    if n < m {
        lemma_fault_stays(document, tokens, n, (m - 1) as nat);
    }
}

/// Checks that tokens follow one another from the first byte to the last.
pub fn validate_coverage(document: &str, result: &LexResult) -> (outcome: Result<(), String>)
    ensures
        match outcome {
            Ok(_) => coverage_fault(document@, result@.tokens) is None,
            Err(fault) => coverage_fault(document@, result@.tokens) == Some(fault@),
        },
{
    let length: usize = text_size(document);
    let ghost spans = token_spans(result.tokens@);
    proof {
        chars::lemma_encoded_size(document@);
    }
    let mut cursor: usize = 0;
    let mut k: usize = 0;
    while k < result.tokens.len()
        invariant
            k <= result.tokens@.len(),
            spans == token_spans(result.tokens@),
            spans == result@.tokens,
            length == chars::size(document@),
            cursor == covered(spans, k as nat),
            first_token_fault(document@, spans, k as nat) is None,
        decreases result.tokens@.len() - k,
    {
        let token = &result.tokens[k];
        let ghost next = (k + 1) as nat;
        assert(spans[k as int] == token@);
        if token.start != cursor || token.end <= token.start || token.end > length {
            let mut fault = "invalid token range ".to_owned();
            push_decimal(&mut fault, token.start as u64);
            fault.append("..");
            push_decimal(&mut fault, token.end as u64);
            fault.append(" after ");
            push_decimal(&mut fault, cursor as u64);
            proof {
                lemma_fault_stays(document@, spans, next, spans.len());
            }
            return Err(fault);
        }
        if !document.is_char_boundary(token.start) || !document.is_char_boundary(token.end) {
            let mut fault = "token splits UTF-8 at ".to_owned();
            push_decimal(&mut fault, token.start as u64);
            fault.append("..");
            push_decimal(&mut fault, token.end as u64);
            proof {
                lemma_fault_stays(document@, spans, next, spans.len());
            }
            return Err(fault);
        }
        cursor = token.end;
        k = k + 1;
    }
    if cursor != length {
        let mut fault = "tokens cover ".to_owned();
        push_decimal(&mut fault, cursor as u64);
        fault.append(" of ");
        push_decimal(&mut fault, length as u64);
        fault.append(" bytes");
        return Err(fault);
    }
    Ok(())
}

} // verus!
