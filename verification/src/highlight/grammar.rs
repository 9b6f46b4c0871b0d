//! Which characters make up each kind of token, told by the characters alone.

use vstd::prelude::*;
use crate::chars;
use crate::highlight::laws;
use crate::highlight::lex;
use crate::highlight::lines;
use crate::highlight::scan;
use crate::highlight::scan::{Mode, Span, TokenKind};

verus! {

/// A line feed, or a carriage return and a line feed, stands at character `i`.
pub open spec fn line_breaks_at(text: Seq<char>, i: int) -> bool {
    ||| 0 <= i < text.len() && text[i] == '\n'
    ||| 0 <= i < text.len() - 1 && text[i] == '\r' && text[i + 1] == '\n'
}

/// A line is over before character `i`: its line feed has passed, or the text.
pub open spec fn line_over(text: Seq<char>, i: int) -> bool {
    i == text.len() || (0 < i <= text.len() && text[i - 1] == '\n')
}

pub open spec fn letter(c: char) -> bool {
    c == '_' || chars::alphabetic(c)
}

pub open spec fn word_part(c: char) -> bool {
    c == '_' || chars::alphanumeric(c)
}

/// `/*` stands at character `i`.
pub open spec fn comment_opens(text: Seq<char>, i: int) -> bool {
    0 <= i < text.len() - 1 && text[i] == '/' && text[i + 1] == '*'
}

/// `*/` stands at character `i`.
pub open spec fn comment_closes(text: Seq<char>, i: int) -> bool {
    0 <= i < text.len() - 1 && text[i] == '*' && text[i + 1] == '/'
}

/// In a string whose text begins at `from`, a backslash that is not itself escaped
/// escapes character `i`; `open` says so of the first.
pub open spec fn escaped_in(text: Seq<char>, from: int, open: bool, i: int) -> bool
    decreases i - from,
{
    if i <= from {
        open
    } else {
        text[i - 1] == '\\' && !escaped_in(text, from, open, i - 1)
    }
}

/// A quote that ends a string stands at character `i`.
pub open spec fn string_closes(text: Seq<char>, from: int, open: bool, i: int) -> bool {
    from <= i < text.len() && text[i] == '"' && !escaped_in(text, from, open, i)
}

/// Characters `s` to `e` are a string or a part of one, whose text begins at `from`:
/// it ends with the first quote that is not escaped, or with the line.
pub open spec fn string_part(
    text: Seq<char>,
    from: int,
    open: bool,
    e: int,
    opened: nat,
    after: Mode,
) -> bool {
    &&& from <= e
    &&& forall|i: int| from <= i < e - 1 ==> !#[trigger] string_closes(text, from, open, i)
    &&& if string_closes(text, from, open, e - 1) {
        after == Mode::Normal
    } else {
        line_over(text, e) && after == (Mode::Quoted {
            escaped: escaped_in(text, from, open, e),
            start: opened,
        })
    }
}

/// Characters `s` to `e` are a block comment or a part of one, whose text begins at
/// `from`: it ends with the first `*/`, or with the line.
pub open spec fn comment_part(
    text: Seq<char>,
    from: int,
    e: int,
    opened: nat,
    after: Mode,
) -> bool {
    &&& from <= e
    &&& forall|i: int| from <= i < e - 2 ==> !#[trigger] comment_closes(text, i)
    &&& if from <= e - 2 && comment_closes(text, e - 2) {
        after == Mode::Normal
    } else {
        line_over(text, e) && after == (Mode::Commented { start: opened })
    }
}

/// What characters `s` to `e` of a text must be for a token of some kind, between the
/// states before and after it. Byte `base` is where the text begins.
#[verifier::opaque]
pub open spec fn reads(
    text: Seq<char>,
    base: nat,
    s: int,
    e: int,
    kind: TokenKind,
    before: Mode,
    after: Mode,
) -> bool {
    let here = base + chars::size(text.take(s));
    &&& 0 <= s < e <= text.len()
    &&& forall|i: int| s <= i < e - 1 ==> #[trigger] text[i] != '\n'
    &&& match before {
        Mode::Quoted { escaped, start } => kind == TokenKind::String && string_part(
            text,
            s,
            escaped,
            e,
            start,
            after,
        ),
        Mode::Commented { start } => kind == TokenKind::BlockComment && comment_part(
            text,
            s,
            e,
            start,
            after,
        ),
        Mode::Normal => match kind {
            TokenKind::String => text[s] == '"' && string_part(text, s + 1, false, e, here, after),
            TokenKind::BlockComment => comment_opens(text, s) && comment_part(
                text,
                s + 2,
                e,
                here,
                after,
            ),
            TokenKind::LineComment => {
                &&& after == Mode::Normal
                &&& text[s] == '#'
                &&& forall|i: int| s <= i < e ==> !#[trigger] line_breaks_at(text, i)
                &&& e == text.len() || line_breaks_at(text, e)
            },
            TokenKind::Whitespace => {
                &&& after == Mode::Normal
                &&& forall|i: int| s <= i < e ==> chars::whitespace(#[trigger] text[i])
                &&& line_over(text, e) || !chars::whitespace(text[e])
            },
            TokenKind::Identifier => {
                &&& after == Mode::Normal
                &&& letter(text[s]) && !chars::whitespace(text[s])
                &&& forall|i: int| s < i < e ==> word_part(#[trigger] text[i])
                &&& e == text.len() || !word_part(text[e])
            },
            TokenKind::Number => {
                &&& after == Mode::Normal
                &&& forall|i: int| s <= i < e ==> '0' <= #[trigger] text[i] <= '9'
                &&& e == text.len() || !('0' <= text[e] <= '9')
            },
            TokenKind::Punctuation => {
                &&& after == Mode::Normal
                &&& e == s + 1
                &&& !chars::whitespace(text[s]) && text[s] != '#' && text[s] != '"'
                &&& !letter(text[s]) && !('0' <= text[s] <= '9') && !comment_opens(text, s)
            },
        },
    }
}

/// Tokens of a text, between characters `cuts` and the states `modes`.
pub open spec fn read_as(
    text: Seq<char>,
    tokens: Seq<Span>,
    cuts: Seq<int>,
    modes: Seq<Mode>,
) -> bool {
    &&& laws::cut_along(text, tokens, cuts)
    &&& modes.len() == cuts.len()
    &&& forall|k: int|
        0 <= k < tokens.len() ==> reads(
            text,
            0,
            cuts[k],
            cuts[k + 1],
            (#[trigger] tokens[k]).kind,
            modes[k],
            modes[k + 1],
        )
}

proof fn lemma_run(kind: TokenKind, line: Seq<char>, i: int)
    requires
        0 <= i <= line.len(),
    ensures
        i <= scan::run_end(kind, line, i) <= line.len(),
        forall|j: int|
            i <= j < scan::run_end(kind, line, i) ==> #[trigger] scan::goes_on(kind, line, j),
        scan::run_end(kind, line, i) == line.len() || !scan::goes_on(
            kind,
            line,
            scan::run_end(kind, line, i),
        ),
    decreases line.len() - i,
{
    if i < line.len() && scan::goes_on(kind, line, i) {
        lemma_run(kind, line, i + 1);
    }
}

proof fn lemma_string(line: Seq<char>, from: int, open: bool, i: int)
    requires
        0 <= from <= i <= line.len(),
        forall|j: int| from <= j < i ==> !#[trigger] string_closes(line, from, open, j),
    ensures
        ({
            let reach = scan::quoted_reach(line, i, escaped_in(line, from, open, i));
            &&& i <= reach.end <= line.len()
            &&& i < line.len() ==> i < reach.end
            &&& forall|j: int|
                from <= j < reach.end - 1 ==> !#[trigger] string_closes(line, from, open, j)
            &&& if reach.closed {
                i < reach.end && string_closes(line, from, open, reach.end - 1)
            } else {
                reach.end == line.len() && !string_closes(line, from, open, reach.end - 1)
                    && reach.escaped == escaped_in(line, from, open, reach.end)
            }
        }),
    decreases line.len() - i,
{
    if i < line.len() {
        let escaped = escaped_in(line, from, open, i);
        assert(escaped_in(line, from, open, i + 1) == (line[i] == '\\' && !escaped));
        if !string_closes(line, from, open, i) {
            lemma_string(line, from, open, i + 1);
        }
    }
}

proof fn lemma_block(line: Seq<char>, from: int, i: int)
    requires
        0 <= from <= i <= line.len(),
        forall|j: int| from <= j < i ==> !#[trigger] comment_closes(line, j),
    ensures
        ({
            let reach = scan::commented_reach(line, i);
            &&& i <= reach.end <= line.len()
            &&& i < line.len() ==> i < reach.end
            &&& forall|j: int| from <= j < reach.end - 2 ==> !#[trigger] comment_closes(line, j)
            &&& if reach.closed {
                i <= reach.end - 2 && comment_closes(line, reach.end - 2)
            } else {
                reach.end == line.len() && !(from <= reach.end - 2 && comment_closes(
                    line,
                    reach.end - 2,
                ))
            }
        }),
    decreases line.len() - i,
{
    if i < line.len() && !comment_closes(line, i) {
        lemma_block(line, from, i + 1);
    }
}

/// A token of a line is made of the characters that its kind asks for.
proof fn lemma_lexeme_reads(line: Seq<char>, base: nat, i: int, mode: Mode)
    requires
        0 <= i < line.len(),
        lines::unbroken(line.drop_last()),
    ensures
        ({
            let next = scan::lexeme(line, base, i, mode);
            reads(line, base, i, next.end, next.kind, mode, next.mode)
        }),
{
    reveal(scan::lexeme);
    reveal(reads);
    let next = scan::lexeme(line, base, i, mode);
    scan::lemma_lexeme(line, base, i, mode);
    assert forall|j: int| i <= j < next.end - 1 implies #[trigger] line[j] != '\n' by {
        assert(line.drop_last()[j] == line[j]);
    }
    match mode {
        Mode::Quoted { escaped, .. } => {
            lemma_string(line, i, escaped, i);
        },
        Mode::Commented { .. } => {
            lemma_block(line, i, i);
        },
        Mode::Normal => {
            if !scan::is_blank(line, i) && scan::opens_comment(line, i) {
                lemma_block(line, i + 2, i + 2);
            } else if !scan::is_blank(line, i) && line[i] == '"' {
                lemma_string(line, i + 1, false, i + 1);
            } else {
                let kind = scan::plain_kind(line, i);
                lemma_run(kind, line, i + 1);
                assert forall|j: int| i < j < next.end implies scan::goes_on(
                    kind,
                    line,
                    j,
                ) by {}
                if kind == TokenKind::Whitespace {
                    assert forall|j: int| i <= j < next.end implies chars::whitespace(
                        #[trigger] line[j],
                    ) by {
                        if j > i {
                            assert(scan::goes_on(kind, line, j));
                        }
                    }
                } else if kind == TokenKind::LineComment {
                    assert forall|j: int| i <= j < next.end implies !#[trigger] line_breaks_at(
                        line,
                        j,
                    ) by {
                        if j > i {
                            assert(scan::goes_on(kind, line, j));
                        }
                    }
                } else if kind == TokenKind::Identifier {
                    assert forall|j: int| i < j < next.end implies word_part(
                        #[trigger] line[j],
                    ) by {
                        assert(scan::goes_on(kind, line, j));
                    }
                } else if kind == TokenKind::Number {
                    assert forall|j: int| i <= j < next.end implies '0' <= #[trigger] line[j]
                        <= '9' by {
                        if j > i {
                            assert(scan::goes_on(kind, line, j));
                        }
                    }
                }
            }
        },
    }
}

/// A line of a text, between its beginning and the rest.
pub open spec fn line_within(text: Seq<char>, at: int, line: Seq<char>) -> bool {
    &&& 0 <= at <= at + line.len() <= text.len()
    &&& text.subrange(at, at + line.len()) == line
    &&& at + line.len() == text.len() || lines::complete(line)
}

proof fn lemma_escaped_moves(text: Seq<char>, at: int, line: Seq<char>, from: int, open: bool, i: int)
    requires
        line_within(text, at, line),
        0 <= from <= i <= line.len(),
    ensures
        escaped_in(text, at + from, open, at + i) == escaped_in(line, from, open, i),
    decreases i - from,
{
    if i > from {
        lemma_escaped_moves(text, at, line, from, open, i - 1);
        assert(line[i - 1] == text[at + i - 1]);
    }
}

proof fn lemma_string_moves(
    text: Seq<char>,
    at: int,
    line: Seq<char>,
    from: int,
    open: bool,
    e: int,
    opened: nat,
    after: Mode,
)
    requires
        line_within(text, at, line),
        0 <= from <= e <= line.len(),
        e > 0,
        string_part(line, from, open, e, opened, after),
    ensures
        string_part(text, at + from, open, at + e, opened, after),
{
    assert forall|i: int| at + from <= i < at + e implies #[trigger] string_closes(
        text,
        at + from,
        open,
        i,
    ) == string_closes(line, from, open, i - at) by {
        lemma_escaped_moves(text, at, line, from, open, i - at);
        assert(line[i - at] == text[i]);
    }
    lemma_escaped_moves(text, at, line, from, open, e);
    assert(line[e - 1] == text[at + e - 1]);
    if from == e {
        assert(!string_closes(text, at + from, open, at + e - 1));
    }
}

proof fn lemma_comment_moves(
    text: Seq<char>,
    at: int,
    line: Seq<char>,
    from: int,
    e: int,
    opened: nat,
    after: Mode,
)
    requires
        line_within(text, at, line),
        0 <= from <= e <= line.len(),
        e > 0,
        comment_part(line, from, e, opened, after),
    ensures
        comment_part(text, at + from, at + e, opened, after),
{
    assert forall|i: int| at <= i < at + e - 1 implies #[trigger] comment_closes(text, i)
        == comment_closes(line, i - at) by {
        assert(line[i - at] == text[i]);
        assert(line[i - at + 1] == text[i + 1]);
    }
    assert(line[e - 1] == text[at + e - 1]);
}

proof fn lemma_plain_moves(
    text: Seq<char>,
    at: int,
    line: Seq<char>,
    base: nat,
    s: int,
    e: int,
    kind: TokenKind,
    after: Mode,
)
    requires
        line_within(text, at, line),
        reads(line, base, s, e, kind, Mode::Normal, after),
        kind != TokenKind::String && kind != TokenKind::BlockComment,
    ensures
        reads(text, 0, at + s, at + e, kind, Mode::Normal, after),
{
    reveal(reads);
    assert forall|i: int| at <= i < at + line.len() implies #[trigger] text[i] == line[i - at] by {
        assert(text.subrange(at, at + line.len())[i - at] == text[i]);
    }
    if e == line.len() && at + e < text.len() {
        assert(line[e - 1] == '\n');
        assert(text[at + e - 1] == '\n');
    }
    if kind == TokenKind::LineComment {
        assert forall|i: int| at <= i < at + line.len() implies #[trigger] line_breaks_at(text, i)
            == line_breaks_at(line, i - at) by {}
        if e == line.len() && at + e < text.len() {
            assert(line_breaks_at(line, e - 1));
        }
    } else if kind == TokenKind::Punctuation {
        if comment_opens(text, at + s) && s + 1 == line.len() {
            assert(line.last() == '\n');
        }
    }
}

/// What the characters of a token are does not depend on the lines around it.
proof fn lemma_reads_moves(
    text: Seq<char>,
    at: int,
    line: Seq<char>,
    s: int,
    e: int,
    kind: TokenKind,
    before: Mode,
    after: Mode,
)
    requires
        line_within(text, at, line),
        reads(line, chars::size(text.take(at)), s, e, kind, before, after),
    ensures
        reads(text, 0, at + s, at + e, kind, before, after),
{
    if before == Mode::Normal && kind != TokenKind::String && kind != TokenKind::BlockComment {
        lemma_plain_moves(text, at, line, chars::size(text.take(at)), s, e, kind, after);
    } else {
        reveal(reads);
        assert forall|i: int| at + s <= i < at + e implies #[trigger] text[i] == line[i - at] by {
            assert(text.subrange(at, at + line.len())[i - at] == text[i]);
        }
        assert(text.take(at + s) =~= text.take(at) + line.take(s));
        chars::lemma_size_concat(text.take(at), line.take(s));
        let opened = chars::size(text.take(at + s));
        match before {
            Mode::Quoted { escaped, start } => {
                lemma_string_moves(text, at, line, s, escaped, e, start, after);
            },
            Mode::Commented { start } => {
                lemma_comment_moves(text, at, line, s, e, start, after);
            },
            Mode::Normal => {
                if kind == TokenKind::String {
                    assert(text[at + s] == line[s]);
                    lemma_string_moves(text, at, line, s + 1, false, e, opened, after);
                } else {
                    assert(text[at + s] == line[s] && text[at + s + 1] == line[s + 1]);
                    lemma_comment_moves(text, at, line, s + 2, e, opened, after);
                }
            },
        }
    }
}

proof fn lemma_scan_reads(line: Seq<char>, base: nat, i: int, mode: Mode) -> (read: (
    Seq<int>,
    Seq<Mode>,
))
    requires
        0 <= i <= line.len(),
        line.len() > 0 ==> lines::unbroken(line.drop_last()),
    ensures
        ({
            let (cuts, modes) = read;
            let found = scan::scan(line, base, i, mode);
            &&& laws::cut_along(line, found.tokens, cuts)
            &&& cuts[0] == i && cuts.last() == line.len()
            &&& modes.len() == cuts.len()
            &&& modes[0] == mode && modes.last() == found.mode
            &&& forall|k: int|
                0 <= k < found.tokens.len() ==> reads(
                    line,
                    base,
                    cuts[k],
                    cuts[k + 1],
                    (#[trigger] found.tokens[k]).kind,
                    modes[k],
                    modes[k + 1],
                )
        }),
    decreases line.len() - i,
{
    if i < line.len() {
        let next = scan::lexeme(line, base, i, mode);
        scan::lemma_lexeme(line, base, i, mode);
        lemma_lexeme_reads(line, base, i, mode);
        let (later_cuts, later_modes) = lemma_scan_reads(line, base, next.end, next.mode);
        let tokens = scan::scan(line, base, i, mode).tokens;
        let later = scan::scan(line, base, next.end, next.mode).tokens;
        let cuts = seq![i] + later_cuts;
        let modes = seq![mode] + later_modes;
        assert forall|k: int| 0 <= k < tokens.len() implies cuts[k] < cuts[k + 1] && (
        #[trigger] tokens[k]).start == chars::size(line.take(cuts[k])) && tokens[k].end
            == chars::size(line.take(cuts[k + 1])) && reads(
            line,
            base,
            cuts[k],
            cuts[k + 1],
            tokens[k].kind,
            modes[k],
            modes[k + 1],
        ) by {
            if k > 0 {
                assert(tokens[k] == later[k - 1]);
                assert(cuts[k] == later_cuts[k - 1] && cuts[k + 1] == later_cuts[k]);
                assert(modes[k] == later_modes[k - 1] && modes[k + 1] == later_modes[k]);
            } else {
                assert(cuts[1] == later_cuts[0] && modes[1] == later_modes[0]);
            }
        }
        assert forall|k: int| 0 <= k < cuts.len() implies 0 <= #[trigger] cuts[k] <= line.len() by {
            if k > 0 {
                assert(cuts[k] == later_cuts[k - 1]);
            }
        }
        (cuts, modes)
    } else {
        (seq![i], seq![mode])
    }
}

#[verifier::spinoff_prover]
#[verifier::rlimit(60)]
proof fn lemma_document_reads(document: Seq<Seq<char>>, n: nat) -> (read: (Seq<int>, Seq<Mode>))
    requires
        n <= document.len(),
        lines::well_split(document),
    ensures
        ({
            let (cuts, modes) = read;
            &&& read_as(lines::flat(document), lex::tokens_before(document, n), cuts, modes)
            &&& cuts[0] == 0 && cuts.last() == lines::flat(document.take(n as int)).len()
            &&& modes[0] == Mode::Normal && modes.last() == lex::mode_at(document, n as int)
        }),
    decreases n,
{
    let text = lines::flat(document);
    if n == 0 {
        assert(document.take(0) =~= Seq::<Seq<char>>::empty());
        (seq![0], seq![Mode::Normal])
    } else {
        let (before, earlier_modes) = lemma_document_reads(document, (n - 1) as nat);
        let k = n - 1;
        let line = document[k];
        let prefix = lines::flat(document.take(k));
        let at = prefix.len() as int;
        let base = lines::start_of(document, k);
        if k < document.len() - 1 {
            assert(lines::complete(document[k]));
        } else {
            assert(line == document.last());
            assert(lines::unbroken(line));
        }
        let (own, own_modes) = lemma_scan_reads(line, base, 0, lex::mode_at(document, k));
        let moved = own.map_values(|c: int| c + at);
        let cuts = before.drop_last() + moved;
        let modes = earlier_modes.drop_last() + own_modes;
        assert(document.take(n as int) =~= document.take(k).push(line));
        lines::lemma_flat_push(document.take(k), line);
        let rest = lines::flat(document.skip(n as int));
        assert(document =~= document.take(n as int) + document.skip(n as int));
        lines::lemma_flat_concat(document.take(n as int), document.skip(n as int));
        assert(text == prefix + line + rest);
        assert(text.subrange(at, at + line.len()) =~= line);
        assert(text.take(at) =~= prefix);
        if k == document.len() - 1 {
            assert(document.skip(n as int) =~= Seq::<Seq<char>>::empty());
            assert(rest.len() == 0);
        }
        assert(line_within(text, at, line));
        let earlier = lex::tokens_before(document, (n - 1) as nat);
        let placed = lex::placed_tokens(document, k);
        let tokens = lex::tokens_before(document, n);
        assert(tokens == earlier + placed);
        assert(moved[0] == at);
        assert(before.last() == at);
        assert forall|c: int| 0 <= c <= line.len() implies #[trigger] chars::size(
            text.take(c + at),
        ) == base + chars::size(line.take(c)) by {
            assert(text.take(c + at) =~= prefix + line.take(c));
            chars::lemma_size_concat(prefix, line.take(c));
        }
        assert forall|j: int| 0 <= j < tokens.len() implies cuts[j] < cuts[j + 1] && (
        #[trigger] tokens[j]).start == chars::size(text.take(cuts[j])) && tokens[j].end
            == chars::size(text.take(cuts[j + 1])) && reads(
            text,
            0,
            cuts[j],
            cuts[j + 1],
            tokens[j].kind,
            modes[j],
            modes[j + 1],
        ) by {
            if j < earlier.len() {
                assert(tokens[j] == earlier[j]);
                assert(cuts[j] == before[j] && modes[j] == earlier_modes[j]);
                if j + 1 == earlier.len() {
                    assert(cuts[j + 1] == moved[0] && modes[j + 1] == own_modes[0]);
                } else {
                    assert(cuts[j + 1] == before[j + 1] && modes[j + 1] == earlier_modes[j + 1]);
                }
            } else {
                let m = j - earlier.len();
                let span = lex::scan_at(document, k).tokens[m];
                assert(tokens[j] == placed[m]);
                assert(placed[m] == lex::shifted(span, base));
                assert(cuts[j] == own[m] + at && modes[j] == own_modes[m]);
                assert(cuts[j + 1] == own[m + 1] + at && modes[j + 1] == own_modes[m + 1]);
                assert(0 <= own[m] <= line.len() && 0 <= own[m + 1] <= line.len());
                lemma_reads_moves(
                    text,
                    at,
                    line,
                    own[m],
                    own[m + 1],
                    span.kind,
                    own_modes[m],
                    own_modes[m + 1],
                );
            }
        }
        assert forall|j: int| 0 <= j < cuts.len() implies 0 <= #[trigger] cuts[j] <= text.len() by {
            if j < before.len() - 1 {
                assert(cuts[j] == before[j]);
            } else {
                let m = j - (before.len() - 1);
                assert(cuts[j] == own[m] + at);
                assert(0 <= own[m] <= line.len());
            }
        }
        if before.len() == 1 {
            assert(cuts[0] == moved[0] && modes[0] == own_modes[0]);
            assert(before[0] == before.last() && earlier_modes[0] == earlier_modes.last());
        } else {
            assert(cuts[0] == before[0] && modes[0] == earlier_modes[0]);
        }
        assert(cuts.last() == moved.last() && modes.last() == own_modes.last());
        (cuts, modes)
    }
}

/// The tokens of any document read it by the characters alone: white space, words,
/// numbers and line comments are as long as they can be, a string ends with the first
/// quote that no backslash escapes, a block comment with the first `*/`, either is cut
/// where a line ends and goes on in the next, and every other character stands alone.
pub proof fn tokens_read_their_characters(document: Seq<char>)
    ensures
        exists|cuts: Seq<int>, modes: Seq<Mode>|
            #![trigger read_as(document, lex::lexed(document).tokens, cuts, modes)]
            read_as(document, lex::lexed(document).tokens, cuts, modes) && cuts[0] == 0
                && cuts.last() == document.len() && modes[0] == Mode::Normal && modes.last()
                == lex::lexed(document).mode,
{
    let all = lines::lines_of(document);
    lines::lemma_lines_split(document);
    let (cuts, modes) = lemma_document_reads(all, all.len());
    assert(all.take(all.len() as int) =~= all);
    assert(read_as(document, lex::lexed(document).tokens, cuts, modes));
}

/// A `#` that stands outside strings and block comments belongs to a line comment,
/// which begins with the first `#` of the kind and takes every character up to the
/// line feed, or the carriage return and line feed, or the end of the text.
pub proof fn line_comments_run_to_the_line_end(document: Seq<char>, i: int) -> (found: (
    int,
    int,
    int,
))
    requires
        0 <= i < document.len(),
        document[i] == '#',
    ensures
        ({
            let tokens = lex::lexed(document).tokens;
            let (k, s, e) = found;
            &&& 0 <= k < tokens.len()
            &&& 0 <= s <= i < e <= document.len()
            &&& tokens[k].start == chars::size(document.take(s))
            &&& tokens[k].end == chars::size(document.take(e))
            &&& tokens[k].kind == TokenKind::String || tokens[k].kind == TokenKind::BlockComment || {
                &&& tokens[k].kind == TokenKind::LineComment
                &&& document[s] == '#'
                &&& forall|j: int| s <= j < e ==> #[trigger] document[j] != '\n'
                &&& forall|j: int|
                    s <= j < e ==> !(#[trigger] document[j] == '\r' && j + 1 < document.len()
                        && document[j + 1] == '\n')
                &&& e == document.len() || document[e] == '\n' || (document[e] == '\r' && e + 1
                    < document.len() && document[e + 1] == '\n')
            }
        }),
{
    tokens_read_their_characters(document);
    let tokens = lex::lexed(document).tokens;
    let (cuts, modes) = choose|cuts: Seq<int>, modes: Seq<Mode>|
        #![trigger read_as(document, tokens, cuts, modes)]
        read_as(document, tokens, cuts, modes) && cuts[0] == 0 && cuts.last() == document.len()
            && modes[0] == Mode::Normal && modes.last() == lex::lexed(document).mode;
    let k = lemma_token_at(document, tokens, cuts, i, tokens.len());
    let (s, e) = (cuts[k], cuts[k + 1]);
    assert(reads(document, 0, s, e, tokens[k].kind, modes[k], modes[k + 1]));
    reveal(reads);
    if tokens[k].kind == TokenKind::LineComment {
        assert forall|j: int| s <= j < e implies #[trigger] document[j] != '\n' by {
            assert(!line_breaks_at(document, j));
        }
        assert forall|j: int| s <= j < e implies !(#[trigger] document[j] == '\r' && j + 1
            < document.len() && document[j + 1] == '\n') by {
            assert(!line_breaks_at(document, j));
        }
    }
    (k, s, e)
}

/// The token that a character belongs to.
proof fn lemma_token_at(
    text: Seq<char>,
    tokens: Seq<Span>,
    cuts: Seq<int>,
    i: int,
    n: nat,
) -> (k: int)
    requires
        laws::cut_along(text, tokens, cuts),
        n <= tokens.len(),
        cuts[0] <= i < cuts[n as int],
    ensures
        0 <= k < n,
        cuts[k] <= i < cuts[k + 1],
    decreases n,
{
    if cuts[n - 1] <= i {
        n - 1
    } else {
        lemma_token_at(text, tokens, cuts, i, (n - 1) as nat)
    }
}

} // verus!
