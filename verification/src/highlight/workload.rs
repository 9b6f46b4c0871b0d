//! Documents and edits drawn from a seed, and the comparison of an incremental
//! lexer with a lexer that starts anew.

use vstd::prelude::*;
use crate::chars;
use crate::chars::{chars_of, text_size, width_of};
use crate::highlight::edit;
use crate::highlight::edit::{Change, Edit};
use crate::highlight::incremental::{EditWork, IncrementalLexer};
use crate::highlight::laws;
use crate::highlight::lex;
use crate::highlight::lex::{full_lex, validate_coverage, Diagnostic, LexResult, Token};
use crate::highlight::lines;
use crate::text;
use crate::text::push_decimal;
use vstd::string::StringSliceAdditionalSpecFns;

verus! {

pub const DOCUMENT_SEED: u64 = 0x6d61_7261_2d64_6f63;

pub const EDIT_SEED: u64 = 0x6d61_7261_2d65_6469;

/// The generator after a draw, which is also what was drawn.
pub open spec fn stirred(state: u64) -> u64 {
    let first = state ^ (state << 13u64);
    let second = first ^ (first >> 7u64);
    second ^ (second << 17u64)
}

/// The generator after some draws.
pub open spec fn stirs(state: u64, n: nat) -> u64
    decreases n,
{
    if n == 0 {
        state
    } else {
        stirred(stirs(state, (n - 1) as nat))
    }
}

/// A draw brought below a bound.
pub open spec fn below(value: u64, upper: nat) -> nat {
    (value as usize) as nat % upper
}

/// A draw moved on by an offset and brought below a bound.
pub open spec fn turned(value: u64, offset: usize, upper: nat) -> nat {
    (value as usize).wrapping_add(offset) as nat % upper
}

#[derive(Debug, Clone)]
pub struct Rng {
    pub state: u64,
}

impl Rng {
    pub fn new(seed: u64) -> (rng: Rng)
        ensures
            rng.state == seed,
    {
        Rng { state: seed }
    }

    pub fn next_u64(&mut self) -> (value: u64)
        ensures
            final(self).state == stirred(old(self).state),
            value == stirred(old(self).state),
    {
        let mut value: u64 = self.state;
        value = value ^ (value << 13u64);
        value = value ^ (value >> 7u64);
        value = value ^ (value << 17u64);
        self.state = value;
        value
    }

    pub fn index(&mut self, upper: usize) -> (chosen: usize)
        requires
            upper > 0,
        ensures
            final(self).state == stirred(old(self).state),
            chosen == below(stirred(old(self).state), upper as nat),
            chosen < upper,
    {
        self.next_u64() as usize % upper
    }
}

/// A text, padded with a character until it takes so many bytes.
pub open spec fn padded_text(prefix: Seq<char>, target_bytes: nat, fill: char) -> Seq<char> {
    prefix + Seq::new((target_bytes - chars::size(prefix)) as nat, |i: int| fill)
}

proof fn lemma_size_filled(n: nat, fill: char)
    requires
        chars::width(fill) == 1,
    ensures
        chars::size(Seq::new(n, |i: int| fill)) == n,
    decreases n,
{
    let all = Seq::new(n, |i: int| fill);
    if n > 0 {
        lemma_size_filled((n - 1) as nat, fill);
        assert(all.drop_last() =~= Seq::new((n - 1) as nat, |i: int| fill));
    }
}

/// A padded text takes the bytes asked for, if the padding takes one byte each.
pub proof fn padding_fills(prefix: Seq<char>, target_bytes: nat, fill: char)
    requires
        chars::size(prefix) <= target_bytes,
        chars::width(fill) == 1,
    ensures
        chars::size(padded_text(prefix, target_bytes, fill)) == target_bytes,
{
    let rest = (target_bytes - chars::size(prefix)) as nat;
    lemma_size_filled(rest, fill);
    chars::lemma_size_concat(prefix, Seq::new(rest, |i: int| fill));
}

fn fill_up(value: &mut String, count: usize, fill: char)
    ensures
        final(value)@ == old(value)@ + Seq::new(count as nat, |i: int| fill),
{
    let mut i: usize = 0;
    assert(value@ =~= old(value)@ + Seq::new(0, |i: int| fill));
    while i < count
        invariant
            i <= count,
            value@ == old(value)@ + Seq::new(i as nat, |i: int| fill),
        decreases count - i,
    {
        value.push(fill);
        i = i + 1;
        assert(value@ =~= old(value)@ + Seq::new(i as nat, |i: int| fill));
    }
}

pub fn padded(prefix: &str, target_bytes: usize, fill: char) -> (value: String)
    requires
        chars::size(prefix@) <= target_bytes,
    ensures
        value@ == padded_text(prefix@, target_bytes as nat, fill),
{
    let mut value = prefix.to_owned();
    let length: usize = text_size(prefix);
    fill_up(&mut value, target_bytes - length, fill);
    value
}

/// A text, so many times over.
pub open spec fn repeated(line: Seq<char>, n: nat) -> Seq<char>
    decreases n,
{
    if n == 0 {
        Seq::empty()
    } else {
        repeated(line, (n - 1) as nat) + line
    }
}

proof fn lemma_repeated_size(line: Seq<char>, n: nat)
    ensures
        chars::size(repeated(line, n)) == chars::size(line) * n,
    decreases n,
{
    if n > 0 {
        lemma_repeated_size(line, (n - 1) as nat);
        chars::lemma_size_concat(repeated(line, (n - 1) as nat), line);
        assert(chars::size(line) * n == chars::size(line) * (n - 1) + chars::size(line))
            by (nonlinear_arith)
            requires
                n > 0,
        ;
    } else {
        assert(chars::size(line) * n == 0) by (nonlinear_arith)
            requires
                n == 0,
        ;
    }
}

/// The line that a baseline document repeats.
pub open spec fn baseline_line() -> Seq<char> {
    "generated_identifier_012345678901234567890123456789\n"@
}

/// The document that a lexer is timed on: whole lines, and filling up to the
/// length.
pub open spec fn baseline_text(target_bytes: nat) -> Seq<char> {
    repeated(baseline_line(), target_bytes / chars::size(baseline_line())) + Seq::new(
        target_bytes % chars::size(baseline_line()),
        |i: int| 'x',
    )
}

proof fn lemma_baseline_line()
    ensures
        chars::size(baseline_line()) > 0,
{
    reveal_strlit("generated_identifier_012345678901234567890123456789\n");
    chars::lemma_size_least(baseline_line());
}

/// A baseline document takes the bytes asked for.
pub proof fn baselines_fill(target_bytes: nat)
    ensures
        chars::size(baseline_text(target_bytes)) == target_bytes,
{
    let width = chars::size(baseline_line());
    lemma_baseline_line();
    lemma_repeated_size(baseline_line(), target_bytes / width);
    lemma_size_filled(target_bytes % width, 'x');
    chars::lemma_size_concat(
        repeated(baseline_line(), target_bytes / width),
        Seq::new(target_bytes % width, |i: int| 'x'),
    );
    vstd::arithmetic::div_mod::lemma_fundamental_div_mod(target_bytes as int, width as int);
}

pub fn baseline_fixture(target_bytes: usize) -> (document: String)
    ensures
        document@ == baseline_text(target_bytes as nat),
{
    let line = "generated_identifier_012345678901234567890123456789\n";
    let width: usize = text_size(line);
    proof {
        lemma_baseline_line();
    }
    let count: usize = target_bytes / width;
    let mut document = String::new();
    let mut i: usize = 0;
    while i < count
        invariant
            i <= count,
            line@ == baseline_line(),
            document@ == repeated(baseline_line(), i as nat),
        decreases count - i,
    {
        document.append(line);
        i = i + 1;
    }
    fill_up(&mut document, target_bytes % width, 'x');
    document
}

/// The text of a line of a drawn document.
pub open spec fn pattern_text(choice: nat) -> Seq<char> {
    if choice == 0 {
        "alpha_1 2048 ; ,"@
    } else if choice == 1 {
        "# line comment with /* inert text"@
    } else if choice == 2 {
        "\"string with \\\" escape\" tail"@
    } else if choice == 3 {
        "/* block */ after"@
    } else if choice == 4 {
        "λambda 雪 42"@
    } else if choice == 5 {
        "adjacent/**/delimiters"@
    } else if choice == 6 {
        "\"cross-line"@
    } else if choice == 7 {
        "string end\""@
    } else if choice == 8 {
        "/* cross-line"@
    } else if choice == 9 {
        "block end */"@
    } else {
        ""@
    }
}

fn pattern(choice: usize) -> (text: &'static str)
    ensures
        text@ == pattern_text(choice as nat),
{
    if choice == 0 {
        "alpha_1 2048 ; ,"
    } else if choice == 1 {
        "# line comment with /* inert text"
    } else if choice == 2 {
        "\"string with \\\" escape\" tail"
    } else if choice == 3 {
        "/* block */ after"
    } else if choice == 4 {
        "λambda 雪 42"
    } else if choice == 5 {
        "adjacent/**/delimiters"
    } else if choice == 6 {
        "\"cross-line"
    } else if choice == 7 {
        "string end\""
    } else if choice == 8 {
        "/* cross-line"
    } else if choice == 9 {
        "block end */"
    } else {
        ""
    }
}

/// How many lines a drawn document has before its last part.
pub open spec fn drawn_line_count(state: u64) -> nat {
    20 + below(stirred(state), 40)
}

/// What ends a line of a drawn document.
pub open spec fn drawn_ending(line: nat, document_index: nat, line_count: nat) -> Seq<char> {
    if line + 1 >= line_count {
        ""@
    } else if (line + document_index) % 7 == 0 {
        "\r\n"@
    } else {
        "\n"@
    }
}

/// The first lines of a drawn document. The generator has drawn their number.
pub open spec fn drawn_lines(state: u64, document_index: usize, line_count: nat, n: nat) -> Seq<
    char,
>
    decreases n,
{
    if n == 0 {
        Seq::empty()
    } else {
        let line = (n - 1) as nat;
        drawn_lines(state, document_index, line_count, line) + pattern_text(
            turned(stirs(state, n), (line + document_index) as usize, 11),
        ) + drawn_ending(line, document_index as nat, line_count)
    }
}

/// How a drawn document breaks off.
pub open spec fn drawn_tail(document_index: nat) -> Seq<char> {
    if document_index % 3 == 0 {
        "\n/* intentionally unterminated"@
    } else if document_index % 3 == 1 {
        "\n\"intentionally unterminated\\"@
    } else {
        ""@
    }
}

/// The document that is drawn from a state.
pub open spec fn drawn_document(state: u64, document_index: usize) -> Seq<char> {
    drawn_lines(
        stirred(state),
        document_index,
        drawn_line_count(state),
        drawn_line_count(state),
    ) + drawn_tail(document_index as nat)
}

/// Draws a document. A draw and what is added to it wrap around at the end of the
/// machine's integers.
pub fn correctness_document(rng: &mut Rng, document_index: usize) -> (document: String)
    requires
        document_index + 60 <= usize::MAX,
    ensures
        document@ == drawn_document(old(rng).state, document_index),
        final(rng).state == stirs(stirred(old(rng).state), drawn_line_count(old(rng).state)),
{
    let mut document = String::new();
    let line_count: usize = 20 + rng.index(40);
    let ghost state = rng.state;
    let mut line: usize = 0;
    while line < line_count
        invariant
            line <= line_count < 60,
            document_index + 60 <= usize::MAX,
            rng.state == stirs(state, line as nat),
            document@ == drawn_lines(state, document_index, line_count as nat, line as nat),
        decreases line_count - line,
    {
        let drawn: usize = rng.next_u64() as usize;
        let choice: usize = drawn.wrapping_add(line + document_index) % 11;
        document.append(pattern(choice));
        if line + 1 < line_count {
            if (line + document_index) % 7 == 0 {
                document.append("\r\n");
            } else {
                document.append("\n");
            }
        } else {
            document.append("");
        }
        line = line + 1;
    }
    if document_index % 3 == 0 {
        document.append("\n/* intentionally unterminated");
    } else if document_index % 3 == 1 {
        document.append("\n\"intentionally unterminated\\");
    } else {
        document.append("");
    }
    document
}

/// What a drawn edit puts in place.
pub open spec fn replacement_text(choice: nat) -> Seq<char> {
    if choice == 0 {
        "alpha"@
    } else if choice == 1 {
        "7"@
    } else if choice == 2 {
        ";"@
    } else if choice == 3 {
        ""@
    } else if choice == 4 {
        "λ"@
    } else if choice == 5 {
        "雪"@
    } else if choice == 6 {
        "/*"@
    } else if choice == 7 {
        "*/"@
    } else if choice == 8 {
        "\""@
    } else if choice == 9 {
        "\\"@
    } else if choice == 10 {
        "\n"@
    } else if choice == 11 {
        "\r\n"@
    } else if choice == 12 {
        "\"x\\\"y\""@
    } else {
        "# local"@
    }
}

fn replacement(choice: usize) -> (text: &'static str)
    ensures
        text@ == replacement_text(choice as nat),
{
    if choice == 0 {
        "alpha"
    } else if choice == 1 {
        "7"
    } else if choice == 2 {
        ";"
    } else if choice == 3 {
        ""
    } else if choice == 4 {
        "λ"
    } else if choice == 5 {
        "雪"
    } else if choice == 6 {
        "/*"
    } else if choice == 7 {
        "*/"
    } else if choice == 8 {
        "\""
    } else if choice == 9 {
        "\\"
    } else if choice == 10 {
        "\n"
    } else if choice == 11 {
        "\r\n"
    } else if choice == 12 {
        "\"x\\\"y\""
    } else {
        "# local"
    }
}

/// The character at which a drawn edit starts.
pub open spec fn drawn_start(document: Seq<char>, state: u64) -> nat {
    below(stirred(state), document.len() + 1)
}

/// The character before which a drawn edit stops: at most eight are deleted.
pub open spec fn drawn_end(document: Seq<char>, state: u64) -> nat {
    let start = drawn_start(document, state);
    let most = if document.len() - start < 8 {
        document.len() - start
    } else {
        8
    };
    start + below(stirs(state, 2), (most + 1) as nat)
}

/// The edit that is drawn from a state.
pub open spec fn drawn_edit(document: Seq<char>, state: u64, edit_index: usize) -> Change {
    Change {
        start: chars::size(document.take(drawn_start(document, state) as int)),
        old_end: chars::size(document.take(drawn_end(document, state) as int)),
        replacement: replacement_text(turned(stirs(state, 3), edit_index, 14)),
    }
}

/// A drawn edit stands between characters of its document.
pub proof fn drawn_edits_are_accepted(document: Seq<char>, state: u64, edit_index: usize)
    ensures
        edit::edit_error(document, drawn_edit(document, state, edit_index)) is None,
{
    let start = drawn_start(document, state) as int;
    let end = drawn_end(document, state) as int;
    vstd::arithmetic::div_mod::lemma_mod_bound(
        (stirred(state) as usize) as int,
        (document.len() + 1) as int,
    );
    let most: int = if document.len() - start < 8 {
        document.len() - start
    } else {
        8
    };
    vstd::arithmetic::div_mod::lemma_mod_bound((stirs(state, 2) as usize) as int, most + 1);
    chars::lemma_boundary(document, start);
    chars::lemma_boundary(document, end);
    chars::lemma_size_take(document, end, document.len() as int);
    assert(document.take(document.len() as int) =~= document);
}

/// The bytes of the first characters.
fn size_before(all: &Vec<char>, count: usize) -> (bytes: usize)
    requires
        count <= all@.len(),
        chars::size(all@) <= usize::MAX,
    ensures
        bytes == chars::size(all@.take(count as int)),
{
    let mut bytes: usize = 0;
    let mut i: usize = 0;
    while i < count
        invariant
            i <= count <= all@.len(),
            chars::size(all@) <= usize::MAX,
            bytes == chars::size(all@.take(i as int)),
        decreases count - i,
    {
        proof {
            assert(all@.take(i + 1) =~= all@.take(i as int).push(all@[i as int]));
            chars::lemma_size_push(all@.take(i as int), all@[i as int]);
            chars::lemma_size_take(all@, i + 1, all@.len() as int);
            assert(all@.take(all@.len() as int) =~= all@);
        }
        bytes = bytes + width_of(all[i]);
        i = i + 1;
    }
    bytes
}

/// Draws an edit of a document. A draw and what is added to it wrap around at the
/// end of the machine's integers.
pub fn generated_edit(document: &str, rng: &mut Rng, edit_index: usize) -> (edit: Edit)
    requires
        document@.len() < usize::MAX,
    ensures
        edit@ == drawn_edit(document@, old(rng).state, edit_index),
        final(rng).state == stirs(old(rng).state, 3),
{
    let ghost state = rng.state;
    let all = chars_of(document);
    let length: usize = text_size(document);
    proof {
        reveal_with_fuel(stirs, 4);
        chars::lemma_size_least(document@);
        chars::lemma_encoded_size(document@);
        drawn_edits_are_accepted(document@, state, edit_index);
    }
    let start_place: usize = rng.index(all.len() + 1);
    let rest: usize = all.len() - start_place;
    let most: usize = if rest < 8 {
        rest
    } else {
        8
    };
    let end_place: usize = start_place + rng.index(most + 1);
    let drawn: usize = rng.next_u64() as usize;
    let choice: usize = drawn.wrapping_add(edit_index) % 14;
    let start: usize = size_before(&all, start_place);
    let end: usize = size_before(&all, end_place);
    proof {
        chars::lemma_size_take(document@, start_place as int, end_place as int);
    }
    Edit { start, deleted_bytes: end - start, replacement: replacement(choice).to_owned() }
}

/// How many line feeds a text holds.
pub open spec fn line_feeds(document: Seq<char>) -> nat
    decreases document.len(),
{
    if document.len() == 0 {
        0
    } else {
        line_feeds(document.drop_last()) + if document.last() == '\n' {
            1nat
        } else {
            0nat
        }
    }
}

proof fn lemma_line_feeds(document: Seq<char>)
    ensures
        lines::lines_of(document).len() == line_feeds(document) + 1,
    decreases document.len(),
{
    if document.len() > 0 {
        lemma_line_feeds(document.drop_last());
    }
}

fn count_line_feeds(document: &str) -> (count: usize)
    ensures
        count == line_feeds(document@),
{
    let all = chars_of(document);
    let mut count: usize = 0;
    let mut i: usize = 0;
    while i < all.len()
        invariant
            i <= all@.len(),
            count <= i,
            count == line_feeds(all@.take(i as int)),
        decreases all@.len() - i,
    {
        assert(all@.take(i + 1).drop_last() =~= all@.take(i as int));
        if all[i] == '\n' {
            count = count + 1;
        }
        i = i + 1;
    }
    assert(all@.take(all@.len() as int) =~= all@);
    count
}

fn same_tokens(a: &Vec<Token>, b: &Vec<Token>) -> (same: bool)
    ensures
        same == (lex::token_spans(a@) == lex::token_spans(b@)),
{
    let ghost left = lex::token_spans(a@);
    let ghost right = lex::token_spans(b@);
    if a.len() != b.len() {
        assert(left.len() != right.len());
        return false;
    }
    let mut i: usize = 0;
    while i < a.len()
        invariant
            i <= a@.len() == b@.len(),
            left == lex::token_spans(a@),
            right == lex::token_spans(b@),
            forall|j: int| 0 <= j < i ==> left[j] == right[j],
        decreases a@.len() - i,
    {
        if a[i] != b[i] {
            assert(left[i as int] != right[i as int]);
            return false;
        }
        i = i + 1;
    }
    assert(left =~= right);
    true
}

fn same_diagnostics(a: &Vec<Diagnostic>, b: &Vec<Diagnostic>) -> (same: bool)
    ensures
        same == (a@.map_values(|diagnostic: Diagnostic| diagnostic@) == b@.map_values(
            |diagnostic: Diagnostic| diagnostic@,
        )),
{
    let ghost left = a@.map_values(|diagnostic: Diagnostic| diagnostic@);
    let ghost right = b@.map_values(|diagnostic: Diagnostic| diagnostic@);
    if a.len() != b.len() {
        assert(left.len() != right.len());
        return false;
    }
    let mut i: usize = 0;
    while i < a.len()
        invariant
            i <= a@.len() == b@.len(),
            left == a@.map_values(|diagnostic: Diagnostic| diagnostic@),
            right == b@.map_values(|diagnostic: Diagnostic| diagnostic@),
            forall|j: int| 0 <= j < i ==> left[j] == right[j],
        decreases a@.len() - i,
    {
        if a[i] != b[i] {
            assert(left[i as int] != right[i as int]);
            return false;
        }
        i = i + 1;
    }
    assert(left =~= right);
    true
}

/// Whether two results hold the same tokens, state and diagnostics.
pub fn same_result(a: &LexResult, b: &LexResult) -> (same: bool)
    ensures
        same == (a@ == b@),
{
    same_tokens(&a.tokens, &b.tokens) && a.final_state == b.final_state && same_diagnostics(
        &a.diagnostics,
        &b.diagnostics,
    )
}

fn told(head: &str, document_index: usize, edit_index: usize) -> (message: String)
    ensures
        message@ == head@ + text::decimal(document_index as nat) + ", after edit "@
            + text::decimal(edit_index as nat),
{
    let mut message = head.to_owned();
    push_decimal(&mut message, document_index as u64);
    message.append(", after edit ");
    push_decimal(&mut message, edit_index as u64);
    message
}

/// Compares a lexer with one that starts anew. It finds no difference in the
/// number of lines, the coverage of the document, or the result.
pub fn compare_with_full(
    incremental: &IncrementalLexer,
    document_index: usize,
    edit_index: usize,
) -> (result: Result<(), String>)
    requires
        incremental.well_formed(),
    ensures
        result is Ok,
{
    proof {
        lemma_line_feeds(incremental@.document);
        laws::tokens_cover_document(incremental@.document);
    }
    let cached: usize = incremental.line_count();
    let breaks: usize = count_line_feeds(incremental.document());
    if cached - 1 != breaks {
        let mut message = told(
            "line-cache partition mismatch in document ",
            document_index,
            edit_index,
        );
        message.append(": cached ");
        push_decimal(&mut message, cached as u64);
        message.append(", canonical ");
        push_decimal(&mut message, breaks as u64 + 1);
        return Err(message);
    }
    let actual = incremental.result();
    let expected = full_lex(incremental.document());
    match validate_coverage(incremental.document(), &actual) {
        Ok(_) => {},
        Err(fault) => return Err(fault),
    }
    match validate_coverage(incremental.document(), &expected) {
        Ok(_) => {},
        Err(fault) => return Err(fault),
    }
    if !same_result(&actual, &expected) {
        return Err(told("differential mismatch in document ", document_index, edit_index));
    }
    Ok(())
}

/// The lines of the document that edits are timed on.
pub const BENCHMARK_LINES: usize = 200_000;

/// The line at which a block comment is opened and closed again.
pub const TOGGLE_LINE: usize = 120_001;

/// The bytes of a line of the timed document, with its end.
pub const LINE_BYTES: usize = 52;

/// What ends a line of the timed document.
pub open spec fn ending_text(line: nat) -> Seq<char> {
    if line + 1 == BENCHMARK_LINES {
        ""@
    } else if line % 97 == 0 {
        "\r\n"@
    } else {
        "\n"@
    }
}

/// The bytes that are left for the body of a line.
pub open spec fn body_target(line: nat) -> nat {
    if line + 1 == BENCHMARK_LINES {
        52
    } else if line % 97 == 0 {
        50
    } else {
        51
    }
}

/// Whether a line of the timed document has no body.
pub open spec fn is_blank(line: nat) -> bool {
    line != TOGGLE_LINE && line + 1 != BENCHMARK_LINES && line % 1000 == 0
}

/// The body of a line of the timed document.
pub open spec fn body_text(line: nat) -> Seq<char> {
    let target = body_target(line);
    if line == TOGGLE_LINE {
        padded_text("zzpropagation_anchor"@, target, 'a')
    } else if line + 1 == BENCHMARK_LINES {
        padded_text("last_identifier_\""@, target, 'u')
    } else if line % 1000 == 0 {
        Seq::empty()
    } else if line < 100_000 {
        if line % 6 == 0 {
            padded_text("generated_identifier_"@, target, 'a')
        } else if line % 6 == 1 {
            padded_text("1234567890"@, target, '7')
        } else if line % 6 == 2 {
            padded_text("# local comment "@, target, 'c')
        } else if line % 6 == 3 {
            padded_text("\"escaped \\\" quote "@, (target - 1) as nat, 's') + "\""@
        } else if line % 6 == 4 {
            padded_text("/* closed block "@, (target - 2) as nat, 'b') + "*/"@
        } else {
            padded_text("λunicode_identifier_"@, target, 'm')
        }
    } else if line % 3 == 0 {
        padded_text("generated_identifier_"@, target, 'g')
    } else if line % 3 == 1 {
        padded_text("9988776655"@, target, '4')
    } else {
        padded_text("# suffix comment "@, target, 'h')
    }
}

/// The first lines of the timed document.
pub open spec fn benchmark_text(n: nat) -> Seq<char>
    decreases n,
{
    if n == 0 {
        Seq::empty()
    } else {
        benchmark_text((n - 1) as nat) + body_text((n - 1) as nat) + ending_text((n - 1) as nat)
    }
}

/// Where all characters but the first take one byte, the length tells the size.
proof fn lemma_size_plain(s: Seq<char>)
    requires
        s.len() > 0,
        forall|i: int| 0 < i < s.len() ==> chars::width(#[trigger] s[i]) == 1,
    ensures
        chars::size(s) == s.len() - 1 + chars::width(s[0]),
    decreases s.len(),
{
    reveal_with_fuel(chars::size, 2);
    if s.len() > 1 {
        assert forall|i: int| 0 < i < s.drop_last().len() implies chars::width(
            #[trigger] s.drop_last()[i],
        ) == 1 by {
            assert(s.drop_last()[i] == s[i]);
        }
        lemma_size_plain(s.drop_last());
    }
}

/// How many bytes the constant parts of the bodies take.
proof fn lemma_prefixes()
    ensures
        chars::size("zzpropagation_anchor"@) == 20,
        chars::size("last_identifier_\""@) == 17,
        chars::size("generated_identifier_"@) == 21,
        chars::size("1234567890"@) == 10,
        chars::size("# local comment "@) == 16,
        chars::size("\"escaped \\\" quote "@) == 18,
        chars::size("/* closed block "@) == 16,
        chars::size("λunicode_identifier_"@) == 21,
        chars::size("9988776655"@) == 10,
        chars::size("# suffix comment "@) == 17,
        chars::size("\""@) == 1,
        chars::size("*/"@) == 2,
{
    reveal_strlit("zzpropagation_anchor");
    lemma_size_plain("zzpropagation_anchor"@);
    reveal_strlit("last_identifier_\"");
    lemma_size_plain("last_identifier_\""@);
    reveal_strlit("generated_identifier_");
    lemma_size_plain("generated_identifier_"@);
    reveal_strlit("1234567890");
    lemma_size_plain("1234567890"@);
    reveal_strlit("# local comment ");
    lemma_size_plain("# local comment "@);
    reveal_strlit("\"escaped \\\" quote ");
    lemma_size_plain("\"escaped \\\" quote "@);
    reveal_strlit("/* closed block ");
    lemma_size_plain("/* closed block "@);
    reveal_strlit("λunicode_identifier_");
    lemma_size_plain("λunicode_identifier_"@);
    reveal_strlit("9988776655");
    lemma_size_plain("9988776655"@);
    reveal_strlit("# suffix comment ");
    lemma_size_plain("# suffix comment "@);
    reveal_strlit("\"");
    lemma_size_plain("\""@);
    reveal_strlit("*/");
    lemma_size_plain("*/"@);
}

proof fn lemma_ending(line: nat)
    ensures
        chars::size(ending_text(line)) == 52 - body_target(line),
{
    if line + 1 == BENCHMARK_LINES {
        reveal_strlit("");
        assert(""@ =~= Seq::<char>::empty());
    } else if line % 97 == 0 {
        reveal_strlit("\r\n");
        lemma_size_plain("\r\n"@);
    } else {
        reveal_strlit("\n");
        lemma_size_plain("\n"@);
    }
}

/// The body of a line fills it up, unless the line is blank.
pub proof fn bodies_fill(line: nat)
    ensures
        chars::size(body_text(line)) == if is_blank(line) {
            0
        } else {
            body_target(line)
        },
{
    let target = body_target(line);
    lemma_prefixes();
    if line == TOGGLE_LINE {
        padding_fills("zzpropagation_anchor"@, target, 'a');
    } else if line + 1 == BENCHMARK_LINES {
        padding_fills("last_identifier_\""@, target, 'u');
    } else if line % 1000 == 0 {
    } else if line < 100_000 {
        if line % 6 == 0 {
            padding_fills("generated_identifier_"@, target, 'a');
        } else if line % 6 == 1 {
            padding_fills("1234567890"@, target, '7');
        } else if line % 6 == 2 {
            padding_fills("# local comment "@, target, 'c');
        } else if line % 6 == 3 {
            let padded = padded_text("\"escaped \\\" quote "@, (target - 1) as nat, 's');
            padding_fills("\"escaped \\\" quote "@, (target - 1) as nat, 's');
            chars::lemma_size_concat(padded, "\""@);
        } else if line % 6 == 4 {
            let padded = padded_text("/* closed block "@, (target - 2) as nat, 'b');
            padding_fills("/* closed block "@, (target - 2) as nat, 'b');
            chars::lemma_size_concat(padded, "*/"@);
        } else {
            padding_fills("λunicode_identifier_"@, target, 'm');
        }
    } else if line % 3 == 0 {
        padding_fills("generated_identifier_"@, target, 'g');
    } else if line % 3 == 1 {
        padding_fills("9988776655"@, target, '4');
    } else {
        padding_fills("# suffix comment "@, target, 'h');
    }
}

proof fn lemma_benchmark_size(n: nat)
    ensures
        chars::size(benchmark_text(n + 1)) == chars::size(benchmark_text(n)) + chars::size(
            body_text(n),
        ) + 52 - body_target(n),
        chars::size(benchmark_text(n)) <= 52 * n,
    decreases n,
{
    chars::lemma_size_concat(benchmark_text(n), body_text(n));
    chars::lemma_size_concat(benchmark_text(n) + body_text(n), ending_text(n));
    lemma_ending(n);
    if n > 0 {
        lemma_benchmark_size((n - 1) as nat);
        bodies_fill((n - 1) as nat);
    }
}

fn ending(line: usize) -> (text: &'static str)
    requires
        line < BENCHMARK_LINES,
    ensures
        text@ == ending_text(line as nat),
{
    if line + 1 == BENCHMARK_LINES {
        ""
    } else if line % 97 == 0 {
        "\r\n"
    } else {
        "\n"
    }
}

fn body(line: usize, target: usize) -> (text: String)
    requires
        line < BENCHMARK_LINES,
        target == body_target(line as nat),
    ensures
        text@ == body_text(line as nat),
{
    proof {
        lemma_prefixes();
    }
    if line == TOGGLE_LINE {
        padded("zzpropagation_anchor", target, 'a')
    } else if line + 1 == BENCHMARK_LINES {
        padded("last_identifier_\"", target, 'u')
    } else if line % 1000 == 0 {
        String::new()
    } else if line < 100_000 {
        if line % 6 == 0 {
            padded("generated_identifier_", target, 'a')
        } else if line % 6 == 1 {
            padded("1234567890", target, '7')
        } else if line % 6 == 2 {
            padded("# local comment ", target, 'c')
        } else if line % 6 == 3 {
            let mut text = padded("\"escaped \\\" quote ", target - 1, 's');
            text.append("\"");
            text
        } else if line % 6 == 4 {
            let mut text = padded("/* closed block ", target - 2, 'b');
            text.append("*/");
            text
        } else {
            padded("λunicode_identifier_", target, 'm')
        }
    } else if line % 3 == 0 {
        padded("generated_identifier_", target, 'g')
    } else if line % 3 == 1 {
        padded("9988776655", target, '4')
    } else {
        padded("# suffix comment ", target, 'h')
    }
}

/// The document that edits are timed on, and where its lines stand.
pub struct BenchmarkFixture {
    pub document: String,
    pub starts: Vec<usize>,
    pub body_lengths: Vec<usize>,
    pub toggle_line: usize,
    pub toggle_position: usize,
}

impl BenchmarkFixture {
    /// The fixture tells of the timed document.
    pub open spec fn sound(&self) -> bool {
        &&& self.document@ == benchmark_text(BENCHMARK_LINES as nat)
        &&& self.starts@.len() == BENCHMARK_LINES
        &&& self.body_lengths@.len() == BENCHMARK_LINES
        &&& forall|i: int|
            0 <= i < BENCHMARK_LINES ==> (#[trigger] self.starts@[i]) == chars::size(
                benchmark_text(i as nat),
            )
        &&& forall|i: int|
            0 <= i < BENCHMARK_LINES ==> (#[trigger] self.body_lengths@[i]) == chars::size(
                body_text(i as nat),
            )
        &&& self.toggle_line == TOGGLE_LINE
        &&& self.toggle_position == chars::size(benchmark_text(TOGGLE_LINE as nat))
    }
}

pub fn benchmark_fixture() -> (fixture: BenchmarkFixture)
    ensures
        fixture.sound(),
{
    let mut document = String::new();
    let mut starts: Vec<usize> = Vec::new();
    let mut body_lengths: Vec<usize> = Vec::new();
    let mut start: usize = 0;
    let mut line: usize = 0;
    while line < BENCHMARK_LINES
        invariant
            line <= BENCHMARK_LINES,
            document@ == benchmark_text(line as nat),
            start == chars::size(benchmark_text(line as nat)),
            start <= 52 * line,
            starts@.len() == line,
            body_lengths@.len() == line,
            forall|i: int|
                0 <= i < line ==> (#[trigger] starts@[i]) == chars::size(benchmark_text(i as nat)),
            forall|i: int|
                0 <= i < line ==> (#[trigger] body_lengths@[i]) == chars::size(body_text(i as nat)),
        decreases BENCHMARK_LINES - line,
    {
        proof {
            lemma_benchmark_size(line as nat);
            lemma_benchmark_size((line + 1) as nat);
            bodies_fill(line as nat);
        }
        starts.push(start);
        let target: usize = if line + 1 == BENCHMARK_LINES {
            52
        } else if line % 97 == 0 {
            50
        } else {
            51
        };
        let text = body(line, target);
        let length: usize = text_size(text.as_str());
        body_lengths.push(length);
        document.append(text.as_str());
        document.append(ending(line));
        start = start + length + (LINE_BYTES - target);
        line = line + 1;
    }
    let toggle_position: usize = starts[TOGGLE_LINE];
    BenchmarkFixture { document, starts, body_lengths, toggle_line: TOGGLE_LINE, toggle_position }
}

/// The line that a local edit of the timed document stands in: not the one of the
/// toggle, and none that is too short.
pub open spec fn local_line(state: u64) -> nat {
    let line = 1 + below(stirred(state), (BENCHMARK_LINES - 2) as nat);
    if line == TOGGLE_LINE || chars::size(body_text(line)) < 8 {
        if line + 7 < BENCHMARK_LINES - 2 {
            line + 7
        } else {
            (BENCHMARK_LINES - 2) as nat
        }
    } else {
        line
    }
}

/// How far into its line a local edit stands.
pub open spec fn local_offset(line: nat) -> nat {
    if chars::size(body_text(line)) > 6 {
        6
    } else {
        (chars::size(body_text(line)) - 1) as nat
    }
}

/// Whether an edit of the timed document opens or closes the block comment.
pub open spec fn is_propagating(edit_index: nat) -> bool {
    edit_index % 20 == 19
}

/// The edit of the timed document with a number.
pub open spec fn benchmark_change(state: u64, edit_index: nat, toggle_open: bool) -> Change {
    if is_propagating(edit_index) {
        let start = chars::size(benchmark_text(TOGGLE_LINE as nat));
        Change {
            start,
            old_end: start + 2,
            replacement: if toggle_open {
                "zz"@
            } else {
                "/*"@
            },
        }
    } else {
        let line = local_line(state);
        let start = chars::size(benchmark_text(line)) + local_offset(line);
        Change {
            start,
            old_end: start + 1,
            replacement: if edit_index % 2 == 0 {
                "q"@
            } else {
                "r"@
            },
        }
    }
}

proof fn lemma_local_line(state: u64)
    ensures
        0 < local_line(state) < BENCHMARK_LINES - 1,
        chars::size(body_text(local_line(state))) >= 8,
{
    let drawn = 1 + below(stirred(state), (BENCHMARK_LINES - 2) as nat);
    vstd::arithmetic::div_mod::lemma_mod_bound(
        (stirred(state) as usize) as int,
        BENCHMARK_LINES - 2,
    );
    bodies_fill(drawn);
    bodies_fill(local_line(state));
}

/// Picks an edit of the timed document.
pub fn benchmark_edit(
    fixture: &BenchmarkFixture,
    rng: &mut Rng,
    edit_index: usize,
    toggle_open: bool,
) -> (edit: Edit)
    requires
        fixture.sound(),
    ensures
        edit@ == benchmark_change(old(rng).state, edit_index as nat, toggle_open),
        final(rng).state == if is_propagating(edit_index as nat) {
            old(rng).state
        } else {
            stirred(old(rng).state)
        },
{
    if edit_index % 20 == 19 {
        let replacement = if toggle_open {
            "zz"
        } else {
            "/*"
        };
        Edit {
            start: fixture.toggle_position,
            deleted_bytes: 2,
            replacement: replacement.to_owned(),
        }
    } else {
        proof {
            lemma_local_line(rng.state);
            lemma_benchmark_size(local_line(rng.state));
        }
        let mut line: usize = 1 + rng.index(BENCHMARK_LINES - 2);
        if line == fixture.toggle_line || fixture.body_lengths[line] < 8 {
            line = if line + 7 < BENCHMARK_LINES - 2 {
                line + 7
            } else {
                BENCHMARK_LINES - 2
            };
        }
        let length: usize = fixture.body_lengths[line];
        let offset: usize = if length > 6 {
            6
        } else {
            length - 1
        };
        let replacement = if edit_index % 2 == 0 {
            "q"
        } else {
            "r"
        };
        Edit {
            start: fixture.starts[line] + offset,
            deleted_bytes: 1,
            replacement: replacement.to_owned(),
        }
    }
}

/// What the edits of the timed document came to.
#[derive(Debug, Clone, Copy, PartialEq, Eq, Structural)]
pub struct Tally {
    pub localized_edits: usize,
    pub propagating_edits: usize,
    pub localized_at_most_500_lines: usize,
    pub localized_at_most_2_percent_bytes: usize,
    pub full_relex_bytes: u64,
}

/// Whether a propagating edit stopped short of the end of the document.
pub open spec fn stops_short(edit_index: nat, work: EditWork) -> bool {
    is_propagating(edit_index) && !work.scanned_to_eof
}

/// A tally with one more edit.
pub open spec fn tallied(
    tally: Tally,
    edit_index: nat,
    work: EditWork,
    document_bytes: usize,
) -> Tally {
    let full_relex_bytes = (tally.full_relex_bytes + document_bytes) as u64;
    if is_propagating(edit_index) {
        Tally {
            propagating_edits: (tally.propagating_edits + 1) as usize,
            full_relex_bytes,
            ..tally
        }
    } else {
        Tally {
            localized_edits: (tally.localized_edits + 1) as usize,
            localized_at_most_500_lines: if work.lines_relexed <= 500 {
                (tally.localized_at_most_500_lines + 1) as usize
            } else {
                tally.localized_at_most_500_lines
            },
            localized_at_most_2_percent_bytes: if work.bytes_scanned * 100 <= document_bytes * 2 {
                (tally.localized_at_most_2_percent_bytes + 1) as usize
            } else {
                tally.localized_at_most_2_percent_bytes
            },
            full_relex_bytes,
            ..tally
        }
    }
}

impl Tally {
    pub fn new() -> (tally: Tally)
        ensures
            tally == (Tally {
                localized_edits: 0,
                propagating_edits: 0,
                localized_at_most_500_lines: 0,
                localized_at_most_2_percent_bytes: 0,
                full_relex_bytes: 0,
            }),
    {
        Tally {
            localized_edits: 0,
            propagating_edits: 0,
            localized_at_most_500_lines: 0,
            localized_at_most_2_percent_bytes: 0,
            full_relex_bytes: 0,
        }
    }

    /// Takes in the work of an edit, unless it propagates and stopped short.
    pub fn note(&mut self, edit_index: usize, work: &EditWork, document_bytes: usize) -> (result:
        Result<(), String>)
        requires
            old(self).localized_edits < usize::MAX,
            old(self).propagating_edits < usize::MAX,
            old(self).localized_at_most_500_lines < usize::MAX,
            old(self).localized_at_most_2_percent_bytes < usize::MAX,
            old(self).full_relex_bytes + document_bytes <= u64::MAX,
        ensures
            match result {
                Ok(_) => !stops_short(edit_index as nat, *work) && *final(self) == tallied(
                    *old(self),
                    edit_index as nat,
                    *work,
                    document_bytes,
                ),
                Err(message) => stops_short(edit_index as nat, *work) && *final(self) == *old(self)
                    && message@ == "propagating edit "@ + text::decimal(edit_index as nat)
                    + " unexpectedly converged before EOF"@,
            },
    {
        if edit_index % 20 == 19 {
            if !work.scanned_to_eof {
                let mut message = "propagating edit ".to_owned();
                push_decimal(&mut message, edit_index as u64);
                message.append(" unexpectedly converged before EOF");
                return Err(message);
            }
            self.propagating_edits = self.propagating_edits + 1;
        } else {
            self.localized_edits = self.localized_edits + 1;
            if work.lines_relexed <= 500 {
                self.localized_at_most_500_lines = self.localized_at_most_500_lines + 1;
            }
            if work.bytes_scanned as u128 * 100 <= document_bytes as u128 * 2 {
                self.localized_at_most_2_percent_bytes = self.localized_at_most_2_percent_bytes
                    + 1;
            }
        }
        self.full_relex_bytes = self.full_relex_bytes + document_bytes as u64;
        Ok(())
    }
}

} // verus!
