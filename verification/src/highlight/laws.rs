//! What holds of the tokens of every document.

use vstd::prelude::*;
use crate::chars;
use crate::highlight::edit;
use crate::highlight::edit::{Change, EditError};
use crate::highlight::incremental;
use crate::highlight::incremental::EditWork;
use crate::highlight::lex;
use crate::highlight::lex::DiagnosticKind;
use crate::highlight::lines;
use crate::highlight::scan;
use crate::highlight::scan::{Mode, Span};

verus! {

/// Tokens stand between successive characters `cuts` of a text.
pub open spec fn cut_along(text: Seq<char>, tokens: Seq<Span>, cuts: Seq<int>) -> bool {
    &&& cuts.len() == tokens.len() + 1
    &&& forall|k: int| 0 <= k < cuts.len() ==> 0 <= #[trigger] cuts[k] <= text.len()
    &&& forall|k: int|
        0 <= k < tokens.len() ==> cuts[k] < cuts[k + 1] && (#[trigger] tokens[k]).start
            == chars::size(text.take(cuts[k])) && tokens[k].end == chars::size(
            text.take(cuts[k + 1]),
        )
}

/// The tokens of a line leave no gap.
proof fn lemma_scan_cuts(line: Seq<char>, base: nat, i: int, mode: Mode) -> (cuts: Seq<int>)
    requires
        0 <= i <= line.len(),
    ensures
        cut_along(line, scan::scan(line, base, i, mode).tokens, cuts),
        cuts[0] == i,
        cuts.last() == line.len(),
    decreases line.len() - i,
{
    if i < line.len() {
        let next = scan::lexeme(line, base, i, mode);
        scan::lemma_lexeme(line, base, i, mode);
        let rest = lemma_scan_cuts(line, base, next.end, next.mode);
        let tokens = scan::scan(line, base, i, mode).tokens;
        let later = scan::scan(line, base, next.end, next.mode).tokens;
        let cuts = seq![i] + rest;
        assert forall|k: int| 0 <= k < tokens.len() implies cuts[k] < cuts[k + 1] && (
        #[trigger] tokens[k]).start == chars::size(line.take(cuts[k])) && tokens[k].end
            == chars::size(line.take(cuts[k + 1])) by {
            if k > 0 {
                assert(tokens[k] == later[k - 1]);
                assert(cuts[k] == rest[k - 1] && cuts[k + 1] == rest[k]);
            } else {
                assert(cuts[1] == rest[0]);
            }
        }
        assert forall|k: int| 0 <= k < cuts.len() implies 0 <= #[trigger] cuts[k] <= line.len() by {
            if k > 0 {
                assert(cuts[k] == rest[k - 1]);
            }
        }
        cuts
    } else {
        seq![i]
    }
}

/// The tokens of the first lines leave no gap.
proof fn lemma_lines_cuts(document: Seq<Seq<char>>, n: nat) -> (cuts: Seq<int>)
    requires
        n <= document.len(),
    ensures
        cut_along(lines::flat(document), lex::tokens_before(document, n), cuts),
        cuts[0] == 0,
        cuts.last() == lines::flat(document.take(n as int)).len(),
    decreases n,
{
    let text = lines::flat(document);
    if n == 0 {
        assert(document.take(0) =~= Seq::<Seq<char>>::empty());
        seq![0]
    } else {
        let before = lemma_lines_cuts(document, (n - 1) as nat);
        let k = n - 1;
        let line = document[k];
        let prefix = lines::flat(document.take(k));
        let own = lemma_scan_cuts(line, lines::start_of(document, k), 0, lex::mode_at(document, k));
        let moved = own.map_values(|c: int| c + prefix.len());
        let cuts = before.drop_last() + moved;
        assert(document.take(n as int) =~= document.take(k).push(line));
        lines::lemma_flat_push(document.take(k), line);
        let rest = lines::flat(document.skip(n as int));
        assert(document =~= document.take(n as int) + document.skip(n as int));
        lines::lemma_flat_concat(document.take(n as int), document.skip(n as int));
        assert(text == prefix + line + rest);
        let earlier = lex::tokens_before(document, (n - 1) as nat);
        let placed = lex::placed_tokens(document, k);
        let tokens = lex::tokens_before(document, n);
        assert(tokens == earlier + placed);
        assert(moved[0] == prefix.len());
        assert(before.last() == prefix.len());
        assert forall|c: int| 0 <= c <= line.len() implies #[trigger] chars::size(
            text.take(c + prefix.len()),
        ) == lines::start_of(document, k) + chars::size(line.take(c)) by {
            assert(text.take(c + prefix.len()) =~= prefix + line.take(c));
            chars::lemma_size_concat(prefix, line.take(c));
        }
        assert forall|j: int| 0 <= j < tokens.len() implies cuts[j] < cuts[j + 1] && (
        #[trigger] tokens[j]).start == chars::size(text.take(cuts[j])) && tokens[j].end
            == chars::size(text.take(cuts[j + 1])) by {
            if j < earlier.len() {
                assert(tokens[j] == earlier[j]);
                assert(cuts[j] == before[j]);
                if j + 1 == earlier.len() {
                    assert(cuts[j + 1] == moved[0]);
                } else {
                    assert(cuts[j + 1] == before[j + 1]);
                }
            } else {
                let m = j - earlier.len();
                let span = lex::scan_at(document, k).tokens[m];
                assert(tokens[j] == placed[m]);
                assert(placed[m] == lex::shifted(span, lines::start_of(document, k)));
                assert(cuts[j] == own[m] + prefix.len());
                assert(cuts[j + 1] == own[m + 1] + prefix.len());
                assert(0 <= own[m] <= line.len() && 0 <= own[m + 1] <= line.len());
            }
        }
        assert forall|j: int| 0 <= j < cuts.len() implies 0 <= #[trigger] cuts[j] <= text.len() by {
            if j < before.len() - 1 {
                assert(cuts[j] == before[j]);
            } else {
                let m = j - (before.len() - 1);
                assert(cuts[j] == own[m] + prefix.len());
                assert(0 <= own[m] <= line.len());
            }
        }
        if before.len() == 1 {
            assert(cuts[0] == moved[0]);
            assert(before[0] == before.last());
        } else {
            assert(cuts[0] == before[0]);
        }
        assert(cuts.last() == moved.last());
        cuts
    }
}

proof fn lemma_cut_faultless(text: Seq<char>, tokens: Seq<Span>, cuts: Seq<int>, n: nat)
    requires
        cut_along(text, tokens, cuts),
        n <= tokens.len(),
        cuts[0] == 0,
    ensures
        lex::first_token_fault(text, tokens, n) is None,
        lex::covered(tokens, n) == chars::size(text.take(cuts[n as int])),
    decreases n,
{
    if n > 0 {
        lemma_cut_faultless(text, tokens, cuts, (n - 1) as nat);
        let k = n - 1;
        let token = tokens[k];
        assert(0 <= cuts[k] <= text.len() && 0 <= cuts[k + 1] <= text.len());
        chars::lemma_size_take(text, cuts[k], cuts[k + 1]);
        chars::lemma_boundary(text, cuts[k]);
        chars::lemma_boundary(text, cuts[k + 1]);
    } else {
        assert(text.take(0) =~= Seq::<char>::empty());
    }
}

/// The tokens of any document cover it: they follow one another from the first
/// byte to the last, none empty and none splitting a character.
pub proof fn tokens_cover_document(document: Seq<char>)
    ensures
        lex::coverage_fault(document, lex::lexed(document).tokens) is None,
{
    let all = lines::lines_of(document);
    lines::lemma_lines_split(document);
    let cuts = lemma_lines_cuts(all, all.len());
    let tokens = lex::lexed(document).tokens;
    assert(all.take(all.len() as int) =~= all);
    lemma_cut_faultless(document, tokens, cuts, tokens.len());
    assert(cuts[tokens.len() as int] == cuts.last());
    assert(document.take(document.len() as int) =~= document);
}

/// Editing back what an edit replaced restores the document, and so its tokens.
pub proof fn edits_can_be_undone(document: Seq<char>, change: Change)
    requires
        change.start <= change.old_end,
        edit::edit_error(document, change) is None,
    ensures
        ({
            let after = edit::edited(document, change);
            let undo = Change {
                start: change.start,
                old_end: change.start + chars::size(change.replacement),
                replacement: document.subrange(
                    edit::place(document, change.start),
                    edit::place(document, change.old_end),
                ),
            };
            edit::edit_error(after, undo) is None && edit::edited(after, undo) == document
        }),
{
    let (i, j) = (edit::place(document, change.start), edit::place(document, change.old_end));
    edit::lemma_place_of(document, change.start);
    edit::lemma_place_of(document, change.old_end);
    chars::lemma_size_position(document, i, j);
    let after = edit::edited(document, change);
    let end = i + change.replacement.len();
    assert(after.take(i) =~= document.take(i));
    assert(after.take(end) =~= document.take(i) + change.replacement);
    chars::lemma_size_concat(document.take(i), change.replacement);
    chars::lemma_boundary(after, i);
    chars::lemma_boundary(after, end);
    chars::lemma_size_take(after, end, end);
    edit::lemma_place(after, i);
    edit::lemma_place(after, end);
    assert(after.skip(end) =~= document.skip(j));
    assert(document.take(i) + document.subrange(i, j) + document.skip(j) =~= document);
}

/// Tokens cover a text: they can be laid along characters of it from the first to the last.
pub open spec fn cover(text: Seq<char>, tokens: Seq<Span>) -> bool {
    exists|cuts: Seq<int>| #[trigger]
        cut_along(text, tokens, cuts) && cuts[0] == 0 && cuts.last() == text.len()
}

proof fn lemma_faultless_cut(text: Seq<char>, tokens: Seq<Span>, n: nat) -> (cuts: Seq<int>)
    requires
        n <= tokens.len(),
        lex::first_token_fault(text, tokens, n) is None,
    ensures
        cut_along(text, tokens.take(n as int), cuts),
        cuts[0] == 0,
        lex::covered(tokens, n) == chars::size(text.take(cuts.last())),
    decreases n,
{
    if n == 0 {
        assert(text.take(0) =~= Seq::<char>::empty());
        let cuts = seq![0int];
        assert(cuts.last() == 0);
        cuts
    } else {
        let before = lemma_faultless_cut(text, tokens, (n - 1) as nat);
        let last = tokens[n - 1];
        let end = chars::lemma_boundary_index(text, last.end as int);
        let cuts = before.push(end);
        chars::lemma_size_position(text, before.last(), end);
        let shown = tokens.take(n as int);
        assert forall|k: int| 0 <= k < shown.len() implies cuts[k] < cuts[k + 1] && (
        #[trigger] shown[k]).start == chars::size(text.take(cuts[k])) && shown[k].end
            == chars::size(text.take(cuts[k + 1])) by {
            if k < n - 1 {
                assert(tokens.take(n - 1)[k] == shown[k]);
                assert(cuts[k] == before[k] && cuts[k + 1] == before[k + 1]);
            } else {
                assert(cuts[k] == before.last());
            }
        }
        cuts
    }
}

/// Tokens pass inspection when they cover the document, and not otherwise.
pub proof fn only_covering_tokens_pass(document: Seq<char>, tokens: Seq<Span>)
    ensures
        lex::coverage_fault(document, tokens) is None <==> cover(document, tokens),
{
    assert(document.take(document.len() as int) =~= document);
    if lex::coverage_fault(document, tokens) is None {
        let cuts = lemma_faultless_cut(document, tokens, tokens.len());
        assert(tokens.take(tokens.len() as int) =~= tokens);
        chars::lemma_size_position(document, cuts.last(), document.len() as int);
    }
    if cover(document, tokens) {
        let cuts = choose|cuts: Seq<int>| #[trigger]
            cut_along(document, tokens, cuts) && cuts[0] == 0 && cuts.last() == document.len();
        lemma_cut_faultless(document, tokens, cuts, tokens.len());
        assert(cuts[tokens.len() as int] == cuts.last());
    }
}

/// An edit between two characters of a document is accepted and puts its text in place of
/// what stands between them.
pub proof fn edits_replace_what_they_span(
    document: Seq<char>,
    i: int,
    j: int,
    replacement: Seq<char>,
)
    requires
        0 <= i <= j <= document.len(),
    ensures
        ({
            let change = Change {
                start: chars::size(document.take(i)),
                old_end: chars::size(document.take(j)),
                replacement,
            };
            &&& edit::edit_error(document, change) is None
            &&& edit::edited(document, change) == document.take(i) + replacement + document.skip(j)
        }),
{
    chars::lemma_boundary(document, i);
    chars::lemma_boundary(document, j);
    chars::lemma_size_take(document, i, j);
    edit::lemma_place(document, i);
    edit::lemma_place(document, j);
}

/// An edit is refused when it reaches beyond the document or into a character.
pub proof fn other_edits_are_refused(document: Seq<char>, change: Change)
    requires
        change.start <= change.old_end,
    ensures
        edit::edit_error(document, change) == Some(EditError::OutOfBounds) <==> change.old_end
            > chars::size(document),
        edit::edit_error(document, change) is None <==> exists|i: int, j: int|
            0 <= i <= j <= document.len() && change.start == #[trigger] chars::size(
                document.take(i),
            ) && change.old_end == #[trigger] chars::size(document.take(j)),
{
    if edit::edit_error(document, change) is None {
        edit::lemma_place_of(document, change.start);
        edit::lemma_place_of(document, change.old_end);
        let (i, j) = (
            edit::place(document, change.start),
            edit::place(document, change.old_end),
        );
        chars::lemma_size_position(document, j, i);
        assert(0 <= i <= j <= document.len() && change.start == chars::size(document.take(i))
            && change.old_end == chars::size(document.take(j)));
    }
    if exists|i: int, j: int|
        0 <= i <= j <= document.len() && change.start == #[trigger] chars::size(document.take(i))
            && change.old_end == #[trigger] chars::size(document.take(j)) {
        let (i, j) = choose|i: int, j: int|
            0 <= i <= j <= document.len() && change.start == #[trigger] chars::size(
                document.take(i),
            ) && change.old_end == #[trigger] chars::size(document.take(j));
        edits_replace_what_they_span(document, i, j, change.replacement);
    }
}

/// A string or a block comment that no line of the document ends is complained of, from
/// where it begins to the end of the document; of a document that ends outside them
/// nothing is.
pub proof fn unfinished_documents_are_complained_of(document: Seq<char>)
    ensures
        ({
            let found = lex::lexed(document);
            match found.mode {
                Mode::Normal => found.complaints.len() == 0,
                Mode::Quoted { start, .. } => {
                    &&& found.complaints.len() == 1
                    &&& found.complaints[0].kind == DiagnosticKind::UnterminatedString
                    &&& found.complaints[0].start == start
                    &&& found.complaints[0].end == chars::size(document)
                },
                Mode::Commented { start } => {
                    &&& found.complaints.len() == 1
                    &&& found.complaints[0].kind == DiagnosticKind::UnterminatedBlockComment
                    &&& found.complaints[0].start == start
                    &&& found.complaints[0].end == chars::size(document)
                },
            }
        }),
{
    lines::lemma_lines_split(document);
}

/// The lines of a document are the document again, end to end; each but the last ends with
/// the one line feed that it has, and the last has none.
pub proof fn lines_end_with_their_line_feed(document: Seq<char>)
    ensures
        ({
            let all = lines::lines_of(document);
            &&& all.len() > 0
            &&& lines::flat(all) == document
            &&& forall|k: int|
                0 <= k < all.len() - 1 ==> (#[trigger] all[k]).len() > 0 && all[k].last() == '\n'
            &&& forall|k: int, i: int|
                0 <= k < all.len() && 0 <= i < all[k].len() && (k == all.len() - 1 || i
                    < all[k].len() - 1) ==> #[trigger] all[k][i] != '\n'
        }),
{
    lines::lemma_lines_split(document);
    let all = lines::lines_of(document);
    assert forall|k: int, i: int|
        0 <= k < all.len() && 0 <= i < all[k].len() && (k == all.len() - 1 || i < all[k].len()
            - 1) implies #[trigger] all[k][i] != '\n' by {
        if k == all.len() - 1 {
            assert(lines::unbroken(all.last()));
        } else {
            assert(lines::complete(all[k]));
            assert(all[k].drop_last()[i] == all[k][i]);
        }
    }
}

/// The work is that of the lines from line `first` on: as many as were relexed, with the
/// bytes that were scanned, up to the end of the document if it is so told.
pub open spec fn relexed(after: Seq<Seq<char>>, work: EditWork, first: int) -> bool {
    let end = first + work.lines_relexed;
    &&& 0 <= first < end <= after.len()
    &&& work.bytes_scanned == chars::size(lines::flat(after.subrange(first, end)))
    &&& work.scanned_to_eof == (end == after.len())
}

/// The bytes that an edit has scanned are those of the lines that it has relexed, which
/// stand together in the edited document; it ran to the end of the document when the last
/// of them is the document's, and it does where the states never settle.
pub proof fn edits_scan_the_lines_they_relex(document: Seq<char>, change: Change, work: EditWork)
    requires
        incremental::worked(document, change, work),
    ensures
        ({
            let after = lines::lines_of(edit::edited(document, change));
            &&& exists|first: int| #[trigger] relexed(after, work, first)
            &&& !work.converged ==> work.scanned_to_eof
        }),
{
    let before = lines::lines_of(document);
    let after = lines::lines_of(edit::edited(document, change));
    let (first, last) = choose|first: int, last: int| #[trigger]
        edit::region(before, change, first, last) && {
            let stop = first + work.lines_relexed - 1;
            &&& work.lines_relexed > 0
            &&& stop < after.len()
            &&& forall|j: int|
                first <= j < stop ==> !#[trigger] incremental::settles(
                    before,
                    after,
                    change,
                    last,
                    j,
                )
            &&& work.converged == incremental::settles(before, after, change, last, stop)
            &&& !work.converged ==> stop == after.len() - 1
            &&& work.bytes_scanned == lines::start_of(after, stop + 1) - lines::start_of(
                after,
                first,
            )
            &&& work.scanned_to_eof == (stop == after.len() - 1)
        };
    let end = first + work.lines_relexed;
    let middle = after.subrange(first, end);
    assert(after.take(end) =~= after.take(first) + middle);
    lines::lemma_flat_concat(after.take(first), middle);
    chars::lemma_size_concat(lines::flat(after.take(first)), lines::flat(middle));
    assert(relexed(after, work, first));
}

} // verus!
