//! What an edit does to a document and its lines.

use vstd::prelude::*;
use crate::chars;
use crate::highlight::lex;
use crate::highlight::lines;
use crate::highlight::scan;
use crate::highlight::scan::Mode;

verus! {

/// Replaces `deleted_bytes` bytes from byte `start` on.
#[derive(Debug, Clone)]
pub struct Edit {
    pub start: usize,
    pub deleted_bytes: usize,
    pub replacement: String,
}

#[derive(Debug, Clone, Copy, PartialEq, Eq, Structural)]
pub enum EditError {
    OutOfBounds,
    NotCharBoundary,
}

impl EditError {
    /// What the error says to a reader.
    pub fn message(&self) -> (message: &'static str)
        ensures
            message@ == match self {
                EditError::OutOfBounds => "edit range exceeds document bounds"@,
                EditError::NotCharBoundary => "edit range splits a UTF-8 scalar"@,
            },
    {
        match self {
            EditError::OutOfBounds => "edit range exceeds document bounds",
            EditError::NotCharBoundary => "edit range splits a UTF-8 scalar",
        }
    }
}

/// An edit as plain values: the bytes from `start` to `old_end` give way.
pub struct Change {
    pub start: nat,
    pub old_end: nat,
    pub replacement: Seq<char>,
}

impl View for Edit {
    type V = Change;

    open spec fn view(&self) -> Change {
        Change {
            start: self.start as nat,
            old_end: self.start as nat + self.deleted_bytes as nat,
            replacement: self.replacement@,
        }
    }
}

/// Why an edit is refused, if it is.
pub open spec fn edit_error(document: Seq<char>, change: Change) -> Option<EditError> {
    if change.old_end > chars::size(document) {
        Some(EditError::OutOfBounds)
    } else if !chars::boundary(document, change.start as int) || !chars::boundary(
        document,
        change.old_end as int,
    ) {
        Some(EditError::NotCharBoundary)
    } else {
        None
    }
}

/// The character at which byte `position` stands.
pub open spec fn place(document: Seq<char>, position: nat) -> int {
    choose|i: int| 0 <= i <= document.len() && #[trigger] chars::size(document.take(i)) == position
}

/// The document after an edit.
pub open spec fn edited(document: Seq<char>, change: Change) -> Seq<char> {
    document.take(place(document, change.start)) + change.replacement + document.skip(
        place(document, change.old_end),
    )
}

pub proof fn lemma_place(document: Seq<char>, i: int)
    requires
        0 <= i <= document.len(),
    ensures
        place(document, chars::size(document.take(i))) == i,
{
    let position = chars::size(document.take(i));
    let found = place(document, position);
    assert(0 <= i <= document.len() && chars::size(document.take(i)) == position);
    assert(0 <= found <= document.len() && chars::size(document.take(found)) == position);
    chars::lemma_size_position(document, i, found);
}

/// A position at a boundary has a place.
pub proof fn lemma_place_of(document: Seq<char>, position: nat)
    requires
        chars::boundary(document, position as int),
    ensures
        0 <= place(document, position) <= document.len(),
        chars::size(document.take(place(document, position))) == position,
{
    let i = chars::lemma_boundary_index(document, position as int);
    lemma_place(document, i);
}

/// Line `k` is the one in which byte `position` stands.
pub open spec fn holds(document: Seq<Seq<char>>, k: int, position: nat) -> bool {
    &&& 0 <= k < document.len()
    &&& lines::start_of(document, k) <= position
    &&& k + 1 < document.len() ==> position < lines::start_of(document, k + 1)
}

/// The last byte that an edit touches.
pub open spec fn touched_position(change: Change) -> nat {
    if change.old_end > change.start {
        (change.old_end - 1) as nat
    } else {
        change.start
    }
}

/// The last line that is lexed anew whatever it holds: the one after the last
/// touched line, and the empty one at the end of the document if it follows.
pub open spec fn region_end(document: Seq<Seq<char>>, touched: int) -> int {
    let next = if touched + 1 < document.len() {
        touched + 1
    } else {
        document.len() - 1
    };
    if next + 2 == document.len() && document[next + 1].len() == 0 {
        next + 1
    } else {
        next
    }
}

/// The lines that an edit replaces: `first` to `last`.
pub open spec fn region(document: Seq<Seq<char>>, change: Change, first: int, last: int) -> bool {
    &&& holds(document, first, change.start)
    &&& exists|touched: int| #[trigger]
        holds(document, touched, touched_position(change)) && last == region_end(document, touched)
}

/// Where an opener stands after an edit, if the edit left it alone.
pub open spec fn moved(change: Change, position: nat) -> Option<nat> {
    if position < change.start {
        Some(position)
    } else if position >= change.old_end {
        Some((position - (change.old_end - change.start) + chars::size(change.replacement)) as nat)
    } else {
        None
    }
}

/// A state after an edit, if the edit left its opener alone.
pub open spec fn rebased(change: Change, mode: Mode) -> Option<Mode> {
    match mode {
        Mode::Normal => Some(Mode::Normal),
        Mode::Quoted { escaped, start } => match moved(change, start) {
            Some(start) => Some(Mode::Quoted { escaped, start }),
            None => None,
        },
        Mode::Commented { start } => match moved(change, start) {
            Some(start) => Some(Mode::Commented { start }),
            None => None,
        },
    }
}

/// Lines that move as a whole are lexed alike.
pub proof fn lemma_scan_rebased(
    line: Seq<char>,
    old_base: nat,
    new_base: nat,
    i: int,
    old_mode: Mode,
    new_mode: Mode,
    change: Change,
)
    requires
        0 <= i <= line.len(),
        change.start <= change.old_end <= old_base,
        new_base == old_base - (change.old_end - change.start) + chars::size(change.replacement),
        rebased(change, old_mode) == Some(new_mode),
    ensures
        scan::scan(line, old_base, i, old_mode).tokens == scan::scan(
            line,
            new_base,
            i,
            new_mode,
        ).tokens,
        rebased(change, scan::scan(line, old_base, i, old_mode).mode) == Some(
            scan::scan(line, new_base, i, new_mode).mode,
        ),
    decreases line.len() - i,
{
    if i < line.len() {
        let a = scan::lexeme(line, old_base, i, old_mode);
        let b = scan::lexeme(line, new_base, i, new_mode);
        scan::lemma_lexeme(line, old_base, i, old_mode);
        assert(a.kind == b.kind && a.end == b.end && rebased(change, a.mode) == Some(b.mode)) by {
            reveal(scan::lexeme);
        }
        lemma_scan_rebased(line, old_base, new_base, a.end, a.mode, b.mode, change);
    }
}

/// Lines before the edit keep their states.
pub proof fn lemma_prefix_modes(old_lines: Seq<Seq<char>>, new_lines: Seq<Seq<char>>, k: int)
    requires
        0 <= k <= old_lines.len(),
        k <= new_lines.len(),
        forall|j: int| 0 <= j < k ==> old_lines[j] == new_lines[j],
    ensures
        lex::mode_at(old_lines, k) == lex::mode_at(new_lines, k),
        lines::start_of(old_lines, k) == lines::start_of(new_lines, k),
    decreases k,
{
    assert(old_lines.take(k) =~= new_lines.take(k));
    if k > 0 {
        lemma_prefix_modes(old_lines, new_lines, k - 1);
    }
}

/// The lines after an edit: those before the region, those of the edited region,
/// and those after it.
pub open spec fn respliced(
    old_lines: Seq<Seq<char>>,
    first: int,
    last: int,
    middle: Seq<Seq<char>>,
) -> Seq<Seq<char>> {
    old_lines.take(first) + middle + old_lines.skip(last + 1)
}

/// Lines after the region begin where the edit moved them.
pub proof fn lemma_suffix_start(
    old_lines: Seq<Seq<char>>,
    first: int,
    last: int,
    middle: Seq<Seq<char>>,
    change: Change,
    o: int,
)
    requires
        0 <= first <= last < old_lines.len(),
        last < o <= old_lines.len(),
        chars::size(lines::flat(middle)) + change.old_end - change.start == chars::size(
            lines::flat(old_lines.subrange(first, last + 1)),
        ) + chars::size(change.replacement),
    ensures
        lines::start_of(
            respliced(old_lines, first, last, middle),
            o - (last + 1) + first + middle.len(),
        ) + change.old_end - change.start == lines::start_of(old_lines, o) + chars::size(
            change.replacement,
        ),
{
    let new_lines = respliced(old_lines, first, last, middle);
    let j = o - (last + 1) + first + middle.len();
    let prefix = old_lines.take(first);
    let rest = old_lines.subrange(last + 1, o);
    let old_middle = old_lines.subrange(first, last + 1);
    assert(old_lines.take(o) =~= prefix + old_middle + rest);
    assert(new_lines.take(j) =~= prefix + middle + rest);
    lines::lemma_flat_concat(prefix + old_middle, rest);
    lines::lemma_flat_concat(prefix, old_middle);
    lines::lemma_flat_concat(prefix + middle, rest);
    lines::lemma_flat_concat(prefix, middle);
    let (p, m, r) = (lines::flat(prefix), lines::flat(middle), lines::flat(rest));
    let old_m = lines::flat(old_middle);
    chars::lemma_size_concat(p + old_m, r);
    chars::lemma_size_concat(p, old_m);
    chars::lemma_size_concat(p + m, r);
    chars::lemma_size_concat(p, m);
}

/// From where states agree again, they agree to the end, and lines are lexed alike.
pub proof fn lemma_suffix_modes(
    old_lines: Seq<Seq<char>>,
    first: int,
    last: int,
    middle: Seq<Seq<char>>,
    change: Change,
    from: int,
    o: int,
)
    requires
        0 <= first <= last < from <= o <= old_lines.len(),
        change.start <= change.old_end <= lines::start_of(old_lines, last + 1),
        chars::size(lines::flat(middle)) + change.old_end - change.start == chars::size(
            lines::flat(old_lines.subrange(first, last + 1)),
        ) + chars::size(change.replacement),
        rebased(change, lex::mode_at(old_lines, from)) == Some(
            lex::mode_at(
                respliced(old_lines, first, last, middle),
                from - (last + 1) + first + middle.len(),
            ),
        ),
    ensures
        rebased(change, lex::mode_at(old_lines, o)) == Some(
            lex::mode_at(
                respliced(old_lines, first, last, middle),
                o - (last + 1) + first + middle.len(),
            ),
        ),
        o < old_lines.len() ==> lex::scan_at(old_lines, o).tokens == lex::scan_at(
            respliced(old_lines, first, last, middle),
            o - (last + 1) + first + middle.len(),
        ).tokens,
    decreases o,
{
    let new_lines = respliced(old_lines, first, last, middle);
    let shift = first + middle.len() - (last + 1);
    if o > from {
        lemma_suffix_modes(old_lines, first, last, middle, change, from, o - 1);
        lines::lemma_start_monotone(old_lines, last + 1, o - 1);
        lemma_suffix_start(old_lines, first, last, middle, change, o - 1);
        assert(new_lines[o - 1 + shift] == old_lines[o - 1]);
        lemma_scan_rebased(
            old_lines[o - 1],
            lines::start_of(old_lines, o - 1),
            lines::start_of(new_lines, o - 1 + shift),
            0,
            lex::mode_at(old_lines, o - 1),
            lex::mode_at(new_lines, o - 1 + shift),
            change,
        );
    }
    if o < old_lines.len() {
        lines::lemma_start_monotone(old_lines, last + 1, o);
        lemma_suffix_start(old_lines, first, last, middle, change, o);
        assert(new_lines[o + shift] == old_lines[o]);
        lemma_scan_rebased(
            old_lines[o],
            lines::start_of(old_lines, o),
            lines::start_of(new_lines, o + shift),
            0,
            lex::mode_at(old_lines, o),
            lex::mode_at(new_lines, o + shift),
            change,
        );
    }
}

/// A text that ends with a line feed has an empty last line.
pub proof fn lemma_ended(text: Seq<char>)
    requires
        text.len() > 0,
        text.last() == '\n',
    ensures
        lines::lines_of(text).last().len() == 0,
        lines::lines_of(text).len() > 1,
        lines::flat(lines::lines_of(text).drop_last()) == text,
        forall|k: int|
            0 <= k < lines::lines_of(text).len() - 1 ==> lines::complete(
                #[trigger] lines::lines_of(text)[k],
            ),
{
    lines::lemma_lines_split(text);
    let all = lines::lines_of(text);
    let last = all.last();
    assert(text == lines::flat(all.drop_last()) + last);
    if last.len() > 0 {
        assert(last.last() == text.last());
        assert(last[last.len() - 1] != '\n');
    }
    if all.len() == 1 {
        assert(all.drop_last() =~= Seq::<Seq<char>>::empty());
        assert(lines::flat(all.drop_last()) =~= Seq::<char>::empty());
    }
    assert(lines::flat(all.drop_last()) =~= text);
}

/// An edited region, its lines put in place of the old ones, gives the lines of
/// the edited document.
#[verifier::spinoff_prover]
#[verifier::rlimit(60)]
pub proof fn lemma_respliced(
    document: Seq<char>,
    change: Change,
    first: int,
    last: int,
    text: Seq<char>,
    middle: Seq<Seq<char>>,
)
    requires
        edit_error(document, change) is None,
        change.start <= change.old_end,
        region(lines::lines_of(document), change, first, last),
        ({
            let old_lines = lines::lines_of(document);
            let old_text = lines::flat(old_lines.subrange(first, last + 1));
            let before = lines::flat(old_lines.take(first)).len();
            &&& text == old_text.take(place(document, change.start) - before) + change.replacement
                + old_text.skip(place(document, change.old_end) - before)
            &&& middle == if last + 1 < old_lines.len() {
                lines::lines_of(text).drop_last()
            } else {
                lines::lines_of(text)
            }
        }),
    ensures
        0 <= first <= last < lines::lines_of(document).len(),
        change.old_end <= lines::start_of(lines::lines_of(document), last + 1),
        lines::lines_of(edited(document, change)) == respliced(
            lines::lines_of(document),
            first,
            last,
            middle,
        ),
        chars::size(lines::flat(middle)) + change.old_end - change.start == chars::size(
            lines::flat(lines::lines_of(document).subrange(first, last + 1)),
        ) + chars::size(change.replacement),
{
    let old_lines = lines::lines_of(document);
    lines::lemma_lines_split(document);
    let touched = choose|touched: int| #[trigger]
        holds(old_lines, touched, touched_position(change)) && last == region_end(
            old_lines,
            touched,
        );
    lemma_region_bounds(old_lines, change, first, last, touched);
    let (i, j) = (place(document, change.start), place(document, change.old_end));
    lemma_place_of(document, change.start);
    lemma_place_of(document, change.old_end);
    chars::lemma_size_position(document, i, j);
    let prefix = lines::flat(old_lines.take(first));
    let old_text = lines::flat(old_lines.subrange(first, last + 1));
    let suffix = lines::flat(old_lines.skip(last + 1));
    lemma_three_parts(old_lines, first, last);
    assert(document == prefix + old_text + suffix);
    // The edit lies within the region.
    assert(document.take(prefix.len() as int) =~= prefix);
    chars::lemma_size_position(document, prefix.len() as int, i);
    chars::lemma_size_position(document, i, prefix.len() as int);
    let reach = (prefix.len() + old_text.len()) as int;
    assert(document.take(reach) =~= prefix + old_text);
    chars::lemma_size_position(document, reach, j);
    assert(prefix.len() <= i <= j <= reach);
    let (a, b) = (i - prefix.len(), j - prefix.len());
    assert(edited(document, change) =~= prefix + text + suffix);
    lemma_region_size(document, change, prefix, old_text, suffix, text);
    lines::lemma_lines_split(text);
    let new_lines = respliced(old_lines, first, last, middle);
    if last + 1 < old_lines.len() {
        // The last line of the region is untouched, and complete.
        let line = old_lines[last];
        assert(lines::complete(line));
        let head = lines::flat(old_lines.subrange(first, last));
        assert(old_lines.subrange(first, last + 1) =~= old_lines.subrange(first, last).push(line));
        lines::lemma_flat_push(old_lines.subrange(first, last), line);
        assert(old_text == head + line);
        let stop = (prefix.len() + head.len()) as int;
        assert(old_lines.take(last) =~= old_lines.take(first) + old_lines.subrange(first, last));
        lines::lemma_flat_concat(old_lines.take(first), old_lines.subrange(first, last));
        assert(document.take(stop) =~= prefix + head);
        chars::lemma_size_position(document, stop, j);
        assert(j <= stop);
        assert(old_text.skip(b).last() == line.last());
        assert(text.last() == '\n');
        lemma_ended(text);
        assert(lines::flat(middle) == text);
    } else {
        assert(lines::flat(middle) == text);
    }
    assert(lines::flat(new_lines) == edited(document, change)) by {
        lines::lemma_flat_concat(old_lines.take(first) + middle, old_lines.skip(last + 1));
        lines::lemma_flat_concat(old_lines.take(first), middle);
    }
    assert(lines::well_split(new_lines)) by {
        if last + 1 < old_lines.len() {
            assert forall|k: int| 0 <= k < new_lines.len() - 1 implies lines::complete(
                #[trigger] new_lines[k],
            ) by {
                if k < first {
                    assert(new_lines[k] == old_lines[k]);
                } else if k < first + middle.len() {
                    assert(new_lines[k] == lines::lines_of(text)[k - first]);
                } else {
                    assert(new_lines[k] == old_lines[k - first - middle.len() + last + 1]);
                }
            }
            assert(new_lines.last() == old_lines.last());
        } else {
            assert(old_lines.skip(last + 1) =~= Seq::<Seq<char>>::empty());
            assert(new_lines =~= old_lines.take(first) + middle);
            assert forall|k: int| 0 <= k < new_lines.len() - 1 implies lines::complete(
                #[trigger] new_lines[k],
            ) by {
                if k < first {
                    assert(new_lines[k] == old_lines[k]);
                } else {
                    assert(new_lines[k] == middle[k - first]);
                }
            }
            assert(new_lines.last() == middle.last());
        }
    }
    lines::lemma_split_unique(new_lines, edited(document, change));
}

pub proof fn lemma_three_parts(all: Seq<Seq<char>>, first: int, last: int)
    requires
        0 <= first <= last < all.len(),
    ensures
        lines::flat(all) == lines::flat(all.take(first)) + lines::flat(
            all.subrange(first, last + 1),
        ) + lines::flat(all.skip(last + 1)),
        lines::start_of(all, first) == chars::size(lines::flat(all.take(first))),
        lines::start_of(all, last + 1) == chars::size(
            lines::flat(all.take(first)) + lines::flat(all.subrange(first, last + 1)),
        ),
{
    assert(all =~= all.take(last + 1) + all.skip(last + 1));
    lines::lemma_flat_concat(all.take(last + 1), all.skip(last + 1));
    assert(all.take(last + 1) =~= all.take(first) + all.subrange(first, last + 1));
    lines::lemma_flat_concat(all.take(first), all.subrange(first, last + 1));
}

/// The region holds the edit, and unless it reaches the end its last line lies
/// beyond it.
pub proof fn lemma_region_bounds(
    old_lines: Seq<Seq<char>>,
    change: Change,
    first: int,
    last: int,
    touched: int,
)
    requires
        holds(old_lines, first, change.start),
        holds(old_lines, touched, touched_position(change)),
        last == region_end(old_lines, touched),
        change.start <= change.old_end <= chars::size(lines::flat(old_lines)),
    ensures
        0 <= first <= touched <= last < old_lines.len(),
        change.old_end <= lines::start_of(old_lines, last + 1),
        last + 1 < old_lines.len() ==> change.old_end <= lines::start_of(old_lines, last),
        lines::start_of(old_lines, first) <= change.start,
{
    if touched < first {
        lines::lemma_start_monotone(old_lines, touched + 1, first);
    }
    if touched + 1 < old_lines.len() {
        lines::lemma_start_monotone(old_lines, touched + 1, last);
        lines::lemma_start_monotone(old_lines, last, last + 1);
    } else {
        lines::lemma_start(old_lines, last);
    }
}

proof fn lemma_region_size(
    document: Seq<char>,
    change: Change,
    prefix: Seq<char>,
    old_text: Seq<char>,
    suffix: Seq<char>,
    text: Seq<char>,
)
    requires
        document == prefix + old_text + suffix,
        edit_error(document, change) is None,
        change.start <= change.old_end,
        prefix.len() <= place(document, change.start) <= place(document, change.old_end)
            <= prefix.len() + old_text.len(),
        text == old_text.take(place(document, change.start) - prefix.len()) + change.replacement
            + old_text.skip(place(document, change.old_end) - prefix.len()),
    ensures
        chars::size(text) + change.old_end - change.start == chars::size(old_text) + chars::size(
            change.replacement,
        ),
{
    let (i, j) = (place(document, change.start), place(document, change.old_end));
    lemma_place_of(document, change.start);
    lemma_place_of(document, change.old_end);
    let (a, b) = (i - prefix.len(), j - prefix.len());
    let (x, y, z) = (old_text.take(a), old_text.subrange(a, b), old_text.skip(b));
    assert(old_text =~= x + y + z);
    chars::lemma_size_concat(x + y, z);
    chars::lemma_size_concat(x, y);
    chars::lemma_size_concat(x + change.replacement, z);
    chars::lemma_size_concat(x, change.replacement);
    assert(document.take(i) =~= prefix + x);
    assert(document.take(j) =~= prefix + (x + y));
    chars::lemma_size_concat(prefix, x);
    chars::lemma_size_concat(prefix, x + y);
}

} // verus!
