//! A lexer that keeps the tokens of every line and relexes after an edit.

use vstd::layout;
use vstd::prelude::*;
use crate::chars;
use crate::chars::{chars_of, cut_at, text_size, width_of};
use crate::highlight::edit;
use crate::highlight::edit::{Change, Edit, EditError};
use crate::highlight::lex;
use crate::highlight::lex::{diagnostics, line_size, place_tokens, LexResult, Token};
use crate::highlight::lines;
use crate::highlight::lines::line_slices;
use crate::highlight::scan;
use crate::highlight::scan::{scan_line, LexState, Mode, RelativeToken};

verus! {

/// The work of all edits together.
#[derive(Debug, Clone, Copy, PartialEq, Eq, Structural)]
pub struct WorkCounters {
    pub edits: u64,
    pub lines_relexed: u64,
    pub bytes_scanned: u64,
}

impl Default for WorkCounters {
    fn default() -> (counters: Self)
        ensures
            counters == (WorkCounters { edits: 0, lines_relexed: 0, bytes_scanned: 0 }),
    {
        WorkCounters { edits: 0, lines_relexed: 0, bytes_scanned: 0 }
    }
}

/// The work of one edit.
#[derive(Debug, Clone, Copy, PartialEq, Eq, Structural)]
pub struct EditWork {
    pub lines_relexed: usize,
    pub bytes_scanned: usize,
    pub converged: bool,
    pub scanned_to_eof: bool,
}

#[derive(Debug, Clone)]
struct CachedLine {
    content: Vec<char>,
    incoming: LexState,
    outgoing: LexState,
    tokens: Vec<RelativeToken>,
    valid: bool,
}

#[derive(Debug, Clone)]
pub struct IncrementalLexer {
    document: String,
    lines: Vec<CachedLine>,
    starts: Vec<usize>,
    counters: WorkCounters,
    max_retained_index_estimate_bytes: usize,
}

/// A heuristic allowance for every retained backing allocation.
pub const ALLOCATION_OVERHEAD_ALLOWANCE: usize = 32;

/// The bytes of a cached line's content, and the tokens that it has room for.
#[derive(Debug, Clone, Copy, PartialEq, Eq, Structural)]
pub struct LineRooms {
    pub content: usize,
    pub tokens: usize,
}

/// The allowance for an allocation, if there is one.
pub open spec fn allowance(allocated: bool) -> nat {
    if allocated {
        ALLOCATION_OVERHEAD_ALLOWANCE as nat
    } else {
        0
    }
}

/// The bytes of the first `n` lines: content, tokens and an allowance for each of
/// the two that is there.
pub open spec fn bytes_of_rooms(rooms: Seq<LineRooms>, n: nat) -> nat
    decreases n,
{
    if n == 0 {
        0
    } else {
        let last = rooms[n - 1];
        bytes_of_rooms(rooms, (n - 1) as nat) + last.content as nat + last.tokens as nat
            * layout::size_of::<RelativeToken>() + allowance(last.content > 0) + allowance(
            last.tokens > 0,
        )
    }
}

/// The estimate of an index with room for so many lines and starts, and these rooms
/// in its lines. The two tables of lines and starts are allocations too.
pub open spec fn estimate_of(
    lines: nat,
    starts: nat,
    rooms: Seq<LineRooms>,
    line_bytes: nat,
) -> nat {
    lines * line_bytes + starts * layout::size_of::<usize>() + bytes_of_rooms(rooms, rooms.len())
        + 2 * ALLOCATION_OVERHEAD_ALLOWANCE as nat
}

proof fn lemma_rooms_grow(rooms: Seq<LineRooms>, n: nat, m: nat)
    requires
        n <= m,
    ensures
        bytes_of_rooms(rooms, n) <= bytes_of_rooms(rooms, m),
    decreases m,
{
    if n < m {
        lemma_rooms_grow(rooms, n, (m - 1) as nat);
        let last = rooms[m - 1];
        assert(last.tokens as nat * layout::size_of::<RelativeToken>() >= 0) by (nonlinear_arith);
    }
}

/// The sum of two numbers, or nothing if there is no first one or a word does not
/// hold it.
fn with_more(total: Option<usize>, more: Option<usize>) -> (sum: Option<usize>)
    ensures
        sum == (if total is Some && more is Some && total->0 + more->0 <= usize::MAX {
            Some((total->0 + more->0) as usize)
        } else {
            None
        }),
{
    match (total, more) {
        (Some(total), Some(more)) => total.checked_add(more),
        _ => None,
    }
}

/// The estimate of an index, if a word holds it.
fn checked_estimate(
    lines: usize,
    starts: usize,
    rooms: &Vec<LineRooms>,
    line_bytes: usize,
) -> (bytes: Option<usize>)
    ensures
        match bytes {
            Some(bytes) => bytes == estimate_of(
                lines as nat,
                starts as nat,
                rooms@,
                line_bytes as nat,
            ),
            None => estimate_of(lines as nat, starts as nat, rooms@, line_bytes as nat)
                > usize::MAX,
        },
{
    let token_bytes: usize = core::mem::size_of::<RelativeToken>();
    let start_bytes: usize = core::mem::size_of::<usize>();
    let ghost base = lines * line_bytes + starts * start_bytes + 64;
    let mut total: Option<usize> = with_more(
        with_more(lines.checked_mul(line_bytes), starts.checked_mul(start_bytes)),
        Some(64),
    );
    proof {
        assert(lines * line_bytes >= 0 && starts * start_bytes >= 0) by (nonlinear_arith);
    }
    let mut k: usize = 0;
    while k < rooms.len()
        invariant
            k <= rooms@.len(),
            token_bytes == layout::size_of::<RelativeToken>(),
            match total {
                Some(total) => total == base + bytes_of_rooms(rooms@, k as nat),
                None => base + bytes_of_rooms(rooms@, k as nat) > usize::MAX,
            },
        decreases rooms@.len() - k,
    {
        let room = rooms[k];
        let content_allowance: usize = if room.content > 0 {
            ALLOCATION_OVERHEAD_ALLOWANCE
        } else {
            0
        };
        let token_allowance: usize = if room.tokens > 0 {
            ALLOCATION_OVERHEAD_ALLOWANCE
        } else {
            0
        };
        proof {
            lemma_rooms_grow(rooms@, k as nat, (k + 1) as nat);
            assert(room.tokens * token_bytes >= 0) by (nonlinear_arith);
            assert(room.tokens as nat * layout::size_of::<RelativeToken>() == room.tokens
                * token_bytes);
        }
        total = with_more(total, Some(room.content));
        total = with_more(total, room.tokens.checked_mul(token_bytes));
        total = with_more(total, Some(content_allowance));
        total = with_more(total, Some(token_allowance));
        k = k + 1;
    }
    total
}

/// Estimates the bytes that an index retains, given the room for lines and starts,
/// the rooms of its lines, and the bytes that a cached line takes.
pub fn estimate_of_rooms(
    lines: usize,
    starts: usize,
    rooms: &Vec<LineRooms>,
    line_bytes: usize,
) -> (bytes: usize)
    requires
        estimate_of(lines as nat, starts as nat, rooms@, line_bytes as nat) <= usize::MAX,
    ensures
        bytes == estimate_of(lines as nat, starts as nat, rooms@, line_bytes as nat),
{
    match checked_estimate(lines, starts, rooms, line_bytes) {
        Some(bytes) => bytes,
        None => 0,
    }
}

/// The room that `Vec::capacity` reports: at least the items that the vector holds,
/// and in bytes at most `isize::MAX`, beyond which a vector refuses to grow. How much
/// more than its items is the allocator's choice.
#[verifier::external_body]
fn room_of<T>(items: &Vec<T>) -> (room: usize)
    ensures
        room >= items@.len(),
        room * layout::size_of::<T>() <= isize::MAX,
{
    items.capacity()
}

/// What an allocator gave an index: the room for lines and starts, and the rooms of
/// its lines.
pub struct Drawn {
    pub lines: nat,
    pub starts: nat,
    pub rooms: Seq<LineRooms>,
}

/// The bytes that a cached line takes.
pub closed spec fn cached_line_bytes() -> nat {
    layout::size_of::<CachedLine>()
}

/// An allocator may have given this to the index of a document: each table has room
/// for what it holds and is no larger than a vector can be.
pub open spec fn drawn_for(drawn: Drawn, document: Seq<char>) -> bool {
    let all = lines::lines_of(document);
    &&& drawn.lines >= all.len()
    &&& drawn.lines * cached_line_bytes() <= isize::MAX
    &&& drawn.starts >= all.len()
    &&& drawn.starts * layout::size_of::<usize>() <= isize::MAX
    &&& drawn.rooms.len() == all.len()
    &&& forall|k: int| 0 <= k < all.len() ==> room_for(#[trigger] drawn.rooms[k], all, k)
}

/// Line `k` has room for its tokens, and its content takes the bytes that it has.
pub open spec fn room_for(room: LineRooms, document: Seq<Seq<char>>, k: int) -> bool {
    &&& room.content == chars::size(document[k])
    &&& room.tokens >= lex::scan_at(document, k).tokens.len()
    &&& room.tokens * layout::size_of::<RelativeToken>() <= isize::MAX
}

/// The estimate of what an allocator gave.
pub open spec fn drawn_estimate(drawn: Drawn) -> nat {
    estimate_of(drawn.lines, drawn.starts, drawn.rooms, cached_line_bytes())
}

/// A number estimates the index of a document: it is the exact estimate of what an
/// allocator gave, and the greatest number of a word where no word holds that.
pub open spec fn estimates(bytes: usize, document: Seq<char>) -> bool {
    exists|drawn: Drawn| #[trigger]
        drawn_for(drawn, document) && (if drawn_estimate(drawn) <= usize::MAX {
            bytes == drawn_estimate(drawn)
        } else {
            bytes == usize::MAX
        })
}

spec fn contents(cached: Seq<CachedLine>) -> Seq<Seq<char>> {
    cached.map_values(|line: CachedLine| line.content@)
}

/// A cached line holds what scanning it as line `k` yields.
#[verifier::opaque]
spec fn cached(line: CachedLine, document: Seq<Seq<char>>, k: int) -> bool {
    &&& line.incoming@ == lex::mode_at(document, k)
    &&& line.outgoing@ == lex::mode_at(document, k + 1)
    &&& scan::spans(line.tokens@) == lex::scan_at(document, k).tokens
    &&& line.valid
}

spec fn starts_known(starts: Seq<usize>, document: Seq<Seq<char>>) -> bool {
    &&& starts.len() == document.len()
    &&& forall|k: int|
        0 <= k < starts.len() ==> (#[trigger] starts[k]) == lines::start_of(document, k)
}

/// What a lexer holds, as plain values.
pub struct LexerView {
    pub document: Seq<char>,
    pub counters: WorkCounters,
}

impl View for IncrementalLexer {
    type V = LexerView;

    closed spec fn view(&self) -> LexerView {
        LexerView { document: self.document@, counters: self.counters }
    }
}

/// Line `j` of the edited document, kept from the old one, begins and ends in the
/// states that it had.
#[verifier::opaque]
pub open spec fn settles(
    old_lines: Seq<Seq<char>>,
    new_lines: Seq<Seq<char>>,
    change: Change,
    last: int,
    j: int,
) -> bool {
    let o = j + old_lines.len() - new_lines.len();
    &&& o > last
    &&& edit::rebased(change, lex::mode_at(old_lines, o)) == Some(lex::mode_at(new_lines, j))
    &&& edit::rebased(change, lex::mode_at(old_lines, o + 1)) == Some(
        lex::mode_at(new_lines, j + 1),
    )
}

/// The work of an edit: lines are relexed from the first touched one to the first
/// that settles.
pub open spec fn worked(document: Seq<char>, change: Change, work: EditWork) -> bool {
    let old_lines = lines::lines_of(document);
    let new_lines = lines::lines_of(edit::edited(document, change));
    exists|first: int, last: int| #[trigger]
        edit::region(old_lines, change, first, last) && {
            let stop = first + work.lines_relexed - 1;
            &&& work.lines_relexed > 0
            &&& stop < new_lines.len()
            &&& forall|j: int|
                first <= j < stop ==> !#[trigger] settles(old_lines, new_lines, change, last, j)
            &&& work.converged == settles(old_lines, new_lines, change, last, stop)
            &&& !work.converged ==> stop == new_lines.len() - 1
            &&& work.bytes_scanned == lines::start_of(new_lines, stop + 1) - lines::start_of(
                new_lines,
                first,
            )
            &&& work.scanned_to_eof == (stop == new_lines.len() - 1)
        }
}

/// The counters after one more edit.
pub open spec fn counted(counters: WorkCounters, work: EditWork) -> WorkCounters {
    WorkCounters {
        edits: (counters.edits + 1) as u64,
        lines_relexed: (counters.lines_relexed + work.lines_relexed) as u64,
        bytes_scanned: (counters.bytes_scanned + work.bytes_scanned) as u64,
    }
}

/// The peak after an edit: the greater one of the peak before and an estimate of the
/// edited document.
pub open spec fn raised(before: usize, after: usize, document: Seq<char>) -> bool {
    exists|bytes: usize| #[trigger]
        estimates(bytes, document) && after == (if bytes > before {
            bytes
        } else {
            before
        })
}

/// 64 bits count the work of an edit too, however far it reaches.
pub open spec fn has_room(counters: WorkCounters, document: Seq<char>) -> bool {
    &&& counters.edits < u64::MAX
    &&& counters.lines_relexed + lines::lines_of(document).len() <= u64::MAX
    &&& counters.bytes_scanned + chars::size(document) <= u64::MAX
}

impl IncrementalLexer {
    /// The cache is that of the document.
    pub closed spec fn well_formed(&self) -> bool {
        &&& lines::splits(contents(self.lines@), self.document@)
        &&& starts_known(self.starts@, contents(self.lines@))
        &&& chars::size(self.document@) <= usize::MAX
        &&& forall|k: int|
            0 <= k < self.lines@.len() ==> cached(
                #[trigger] self.lines@[k],
                contents(self.lines@),
                k,
            )
    }

    pub fn new(document: String) -> (lexer: Self)
        ensures
            lexer.well_formed(),
            lexer@.document == document@,
            lexer@.counters == (WorkCounters { edits: 0, lines_relexed: 0, bytes_scanned: 0 }),
            estimates(lexer.peak(), document@),
    {
        let length: usize = text_size(document.as_str());
        let slices = line_slices(&chars_of(document.as_str()));
        let ghost shown = lines::lines_of(document@);
        proof {
            lines::lemma_lines_split(document@);
            lines::lemma_start(shown, 0);
        }
        let mut cache: Vec<CachedLine> = Vec::new();
        let mut starts: Vec<usize> = Vec::new();
        let mut state = LexState::Normal;
        let mut base: usize = 0;
        for line in it: slices
            invariant
                it.seq() == slices@,
                lines::texts(slices@) == shown,
                length == chars::size(lines::flat(shown)),
                cache@.len() == it.index(),
                starts@.len() == it.index(),
                it.index() <= shown.len(),
                base == lines::start_of(shown, it.index() as int),
                state@ == lex::mode_at(shown, it.index() as int),
                forall|k: int|
                    0 <= k < starts@.len() ==> (#[trigger] starts@[k]) == lines::start_of(shown, k),
                forall|k: int|
                    0 <= k < cache@.len() ==> cached(#[trigger] cache@[k], shown, k)
                        && cache@[k].content@ == shown[k],
        {
            let ghost k = it.index() as int;
            proof {
                assert(shown[k] == line@);
                lines::lemma_start(shown, k);
            }
            let (tokens, outgoing) = scan_line(&line, base, state);
            starts.push(base);
            base = base + line_size(&line);
            cache.push(
                CachedLine { content: line, incoming: state, outgoing, tokens, valid: true },
            );
            assert(cached(cache@[k], shown, k)) by {
                reveal(cached);
            }
            state = outgoing;
        }
        assert(contents(cache@) =~= shown);
        let mut lexer = IncrementalLexer {
            document,
            lines: cache,
            starts,
            counters: WorkCounters::default(),
            max_retained_index_estimate_bytes: 0,
        };
        lexer.max_retained_index_estimate_bytes = lexer.retained_index_estimate_bytes();
        lexer
    }

    pub fn document(&self) -> (document: &str)
        ensures
            document@ == self@.document,
    {
        self.document.as_str()
    }

    pub fn counters(&self) -> (counters: WorkCounters)
        ensures
            counters == self@.counters,
    {
        self.counters
    }

    /// The greatest estimate since the lexer was made.
    pub closed spec fn peak(&self) -> usize {
        self.max_retained_index_estimate_bytes
    }

    pub fn max_retained_index_estimate_bytes(&self) -> (bytes: usize)
        ensures
            bytes == self.peak(),
    {
        self.max_retained_index_estimate_bytes
    }

    /// Estimates retained index allocations from owned capacities.
    ///
    /// This is not a measurement of peak memory: it omits transient allocations,
    /// fragmentation, code, and other process state. What the allocator gave
    /// beyond the items held is not stated.
    pub fn retained_index_estimate_bytes(&self) -> (bytes: usize)
        requires
            self.well_formed(),
        ensures
            estimates(bytes, self@.document),
    {
        let ghost shown = contents(self.lines@);
        let ghost all = lines::lines_of(self.document@);
        proof {
            lines::lemma_split_unique(shown, self.document@);
        }
        let mut rooms: Vec<LineRooms> = Vec::new();
        let mut k: usize = 0;
        while k < self.lines.len()
            invariant
                k <= self.lines@.len() == shown.len(),
                self.well_formed(),
                shown == contents(self.lines@),
                shown == all,
                lines::flat(shown) == self.document@,
                rooms@.len() == k,
                forall|j: int| 0 <= j < k ==> room_for(#[trigger] rooms@[j], all, j),
            decreases self.lines@.len() - k,
        {
            proof {
                assert(shown[k as int] == self.lines@[k as int].content@);
                lines::lemma_start(shown, k as int);
                assert(cached(self.lines@[k as int], shown, k as int));
                reveal(cached);
                assert(scan::spans(self.lines@[k as int].tokens@).len()
                    == self.lines@[k as int].tokens@.len());
            }
            let content: usize = line_size(&self.lines[k].content);
            let tokens: usize = room_of(&self.lines[k].tokens);
            rooms.push(LineRooms { content, tokens });
            k = k + 1;
        }
        let line_room: usize = room_of(&self.lines);
        let start_room: usize = room_of(&self.starts);
        let line_bytes: usize = core::mem::size_of::<CachedLine>();
        let ghost drawn = Drawn {
            lines: line_room as nat,
            starts: start_room as nat,
            rooms: rooms@,
        };
        assert(drawn_for(drawn, self@.document));
        match checked_estimate(line_room, start_room, &rooms, line_bytes) {
            Some(bytes) => bytes,
            None => usize::MAX,
        }
    }

    pub fn line_count(&self) -> (count: usize)
        requires
            self.well_formed(),
        ensures
            count == lines::lines_of(self@.document).len(),
    {
        proof {
            lines::lemma_split_unique(contents(self.lines@), self.document@);
        }
        self.lines.len()
    }

    /// The tokens and diagnostics of the document, from the cache.
    pub fn result(&self) -> (result: LexResult)
        requires
            self.well_formed(),
        ensures
            result@ == lex::lexed(self@.document),
    {
        let ghost shown = contents(self.lines@);
        proof {
            lines::lemma_split_unique(shown, self.document@);
        }
        let tokens = collect_tokens(&self.lines, &self.starts);
        let last = self.lines.len() - 1;
        assert(cached(self.lines@[last as int], shown, last as int));
        proof {
            reveal(cached);
        }
        let state = self.lines[last].outgoing;
        let length: usize = text_size(self.document.as_str());
        LexResult { diagnostics: diagnostics(state, length), final_state: state, tokens }
    }

    /// Edits the document and relexes the lines that the edit may change.
    pub fn apply_edit(&mut self, edit: &Edit) -> (result: Result<EditWork, EditError>)
        requires
            old(self).well_formed(),
            edit::edit_error(old(self)@.document, edit@) is None ==> has_room(
                old(self)@.counters,
                edit::edited(old(self)@.document, edit@),
            ),
        ensures
            final(self).well_formed(),
            match result {
                Ok(work) => {
                    &&& edit::edit_error(old(self)@.document, edit@) is None
                    &&& final(self)@.document == edit::edited(old(self)@.document, edit@)
                    &&& final(self)@.counters == counted(old(self)@.counters, work)
                    &&& worked(old(self)@.document, edit@, work)
                    &&& raised(
                        old(self).peak(),
                        final(self).peak(),
                        edit::edited(old(self)@.document, edit@),
                    )
                },
                Err(error) => edit::edit_error(old(self)@.document, edit@) == Some(error)
                    && *final(self) == *old(self),
            },
    {
        let ghost document = self.document@;
        let ghost change = edit@;
        let length: usize = text_size(self.document.as_str());
        proof {
            chars::lemma_encoded_size(document);
        }
        let old_end: usize = match edit.start.checked_add(edit.deleted_bytes) {
            Some(old_end) => old_end,
            None => {
                return Err(EditError::OutOfBounds);
            },
        };
        if edit.start > length || old_end > length {
            return Err(EditError::OutOfBounds);
        }
        if !self.document.as_str().is_char_boundary(edit.start)
            || !self.document.as_str().is_char_boundary(old_end) {
            return Err(EditError::NotCharBoundary);
        }
        let (first, last) = find_region(
            &self.lines,
            &self.starts,
            edit.start,
            old_end,
            Ghost(change),
            Ghost(document),
        );
        let text = edited_text(
            self.document.as_str(),
            edit.start,
            old_end,
            edit.replacement.as_str(),
            Ghost(change),
        );
        let new_length: usize = text_size(text.as_str());
        let inserted: usize = text_size(edit.replacement.as_str());
        let ghost shown = contents(self.lines@);
        proof {
            lines::lemma_split_unique(shown, document);
        }
        let (middle, Ghost(region)) = region_lines(
            &self.lines,
            &self.starts,
            first,
            last,
            edit,
            old_end,
            Ghost(document),
        );
        let ghost splice = Splice {
            old_lines: shown,
            first: first as int,
            last: last as int,
            middle: lines::texts(middle@),
            change,
        };
        proof {
            lemma_splice(document, splice, region);
        }
        replace_lines(&mut self.lines, first, last, middle, Ghost(splice));
        self.document = text;
        self.starts = starts_for(&self.lines);
        let transform = EditTransform { start: edit.start, old_end, inserted };
        let work = relex(&mut self.lines, &self.starts, first, transform, Ghost(splice));
        proof {
            lines::lemma_lines_split(self.document@);
            lemma_work_fits(splice, work);
            lemma_worked(document, splice, work);
        }
        self.counters = WorkCounters {
            edits: self.counters.edits + 1,
            lines_relexed: self.counters.lines_relexed + work.lines_relexed as u64,
            bytes_scanned: self.counters.bytes_scanned + work.bytes_scanned as u64,
        };
        let retained: usize = self.retained_index_estimate_bytes();
        assert(estimates(retained, self@.document));
        if retained > self.max_retained_index_estimate_bytes {
            self.max_retained_index_estimate_bytes = retained;
        }
        Ok(work)
    }
}

/// The lines that an edit replaces.
fn find_region(
    cache: &Vec<CachedLine>,
    starts: &Vec<usize>,
    start: usize,
    old_end: usize,
    Ghost(change): Ghost<Change>,
    Ghost(document): Ghost<Seq<char>>,
) -> (bounds: (usize, usize))
    requires
        lines::splits(contents(cache@), document),
        starts_known(starts@, contents(cache@)),
        edit::edit_error(document, change) is None,
        start == change.start,
        old_end == change.old_end,
        start <= old_end,
    ensures
        edit::region(contents(cache@), change, bounds.0 as int, bounds.1 as int),
        bounds.0 <= bounds.1 < cache@.len(),
        lines::start_of(contents(cache@), bounds.0 as int) <= start,
{
    let ghost shown = contents(cache@);
    proof {
        lines::lemma_start(shown, 0);
    }
    let first = line_at(starts, start, Ghost(shown));
    let touched_position: usize = if old_end > start {
        old_end - 1
    } else {
        start
    };
    let touched = line_at(starts, touched_position, Ghost(shown));
    let mut last: usize = if touched < cache.len() - 1 {
        touched + 1
    } else {
        cache.len() - 1
    };
    if last < cache.len() - 1 && last + 1 == cache.len() - 1 && cache[last + 1].content.len() == 0 {
        last = last + 1;
    }
    proof {
        assert(edit::holds(shown, touched as int, edit::touched_position(change)));
        assert(last == edit::region_end(shown, touched as int));
        edit::lemma_region_bounds(shown, change, first as int, last as int, touched as int);
    }
    (first, last)
}

/// A splice made from an edited region is sound, and gives the lines of the edited
/// document.
proof fn lemma_splice(document: Seq<char>, splice: Splice, text: Seq<char>)
    requires
        edit::edit_error(document, splice.change) is None,
        splice.change.start <= splice.change.old_end,
        splice.old_lines == lines::lines_of(document),
        edit::region(splice.old_lines, splice.change, splice.first, splice.last),
        chars::size(document) <= usize::MAX,
        chars::size(edit::edited(document, splice.change)) <= usize::MAX,
        splice.middle.len() > 0,
        ({
            let old_text = lines::flat(splice.old_lines.subrange(splice.first, splice.last + 1));
            let before = lines::flat(splice.old_lines.take(splice.first)).len();
            &&& text == old_text.take(edit::place(document, splice.change.start) - before)
                + splice.change.replacement + old_text.skip(
                edit::place(document, splice.change.old_end) - before,
            )
            &&& splice.middle == if splice.last + 1 < splice.old_lines.len() {
                lines::lines_of(text).drop_last()
            } else {
                lines::lines_of(text)
            }
        }),
    ensures
        splice.sound(),
        splice.new_lines() == lines::lines_of(edit::edited(document, splice.change)),
        splice.first < splice.new_lines().len(),
{
    edit::lemma_respliced(
        document,
        splice.change,
        splice.first,
        splice.last,
        text,
        splice.middle,
    );
    lines::lemma_lines_split(document);
    lines::lemma_lines_split(edit::edited(document, splice.change));
    let n = splice.old_lines.len() as int;
    edit::lemma_suffix_start(
        splice.old_lines,
        splice.first,
        splice.last,
        splice.middle,
        splice.change,
        n,
    );
    lines::lemma_start(splice.old_lines, 0);
    lines::lemma_start(splice.new_lines(), 0);
}

/// An edit relexes no more than the whole document.
proof fn lemma_work_fits(splice: Splice, work: EditWork)
    requires
        splice.sound(),
        relexed(splice, work),
    ensures
        work.lines_relexed <= splice.new_lines().len(),
        work.bytes_scanned <= chars::size(lines::flat(splice.new_lines())),
{
    let stop = splice.first + work.lines_relexed - 1;
    lines::lemma_start(splice.new_lines(), stop);
}

proof fn lemma_worked(document: Seq<char>, splice: Splice, work: EditWork)
    requires
        relexed(splice, work),
        splice.old_lines == lines::lines_of(document),
        splice.new_lines() == lines::lines_of(edit::edited(document, splice.change)),
        edit::region(splice.old_lines, splice.change, splice.first, splice.last),
    ensures
        worked(document, splice.change, work),
{
    let old_lines = lines::lines_of(document);
    let new_lines = lines::lines_of(edit::edited(document, splice.change));
    let (first, last) = (splice.first, splice.last);
    let stop = first + work.lines_relexed - 1;
    assert forall|j: int| first <= j < stop implies !#[trigger] settles(
        old_lines,
        new_lines,
        splice.change,
        last,
        j,
    ) by {
        assert(!splice.settles(j));
    }
    assert(work.converged == splice.settles(stop));
    assert(edit::region(old_lines, splice.change, first, last));
}

/// Tokens that a line holds stand within it.
proof fn lemma_cached_within(line: CachedLine, document: Seq<Seq<char>>, k: int)
    requires
        0 <= k < document.len(),
        cached(line, document, k),
    ensures
        lines::start_of(document, k) + chars::size(document[k]) <= chars::size(
            lines::flat(document),
        ),
        forall|i: int|
            0 <= i < line.tokens@.len() ==> (#[trigger] line.tokens@[i]).start <= line.tokens@[i].end
                && line.tokens@[i].end <= chars::size(document[k]),
{
    reveal(cached);
    lines::lemma_start(document, k);
    lex::lemma_spans_within(
        document[k],
        lines::start_of(document, k),
        0,
        lex::mode_at(document, k),
    );
    let found = lex::scan_at(document, k);
    assert forall|i: int| 0 <= i < line.tokens@.len() implies (#[trigger] line.tokens@[i]).start
        <= line.tokens@[i].end && line.tokens@[i].end <= chars::size(document[k]) by {
        assert(found.tokens[i] == line.tokens@[i]@);
    }
}

/// The tokens of all cached lines.
fn collect_tokens(cache: &Vec<CachedLine>, starts: &Vec<usize>) -> (tokens: Vec<Token>)
    requires
        starts_known(starts@, contents(cache@)),
        chars::size(lines::flat(contents(cache@))) <= usize::MAX,
        forall|k: int|
            0 <= k < cache@.len() ==> cached(#[trigger] cache@[k], contents(cache@), k),
    ensures
        lex::token_spans(tokens@) == lex::tokens_before(contents(cache@), cache@.len()),
{
    let ghost shown = contents(cache@);
    let mut tokens: Vec<Token> = Vec::new();
    let mut k: usize = 0;
    assert(lex::token_spans(tokens@) =~= lex::tokens_before(shown, 0));
    while k < cache.len()
        invariant
            k <= cache@.len() == shown.len(),
            starts_known(starts@, shown),
            chars::size(lines::flat(shown)) <= usize::MAX,
            forall|k: int| 0 <= k < cache@.len() ==> cached(#[trigger] cache@[k], shown, k),
            lex::token_spans(tokens@) == lex::tokens_before(shown, k as nat),
        decreases cache@.len() - k,
    {
        let base: usize = starts[k];
        let line = &cache[k];
        proof {
            lemma_cached_within(cache@[k as int], shown, k as int);
            assert(scan::spans(line.tokens@) == lex::scan_at(shown, k as int).tokens) by {
                assert(cached(cache@[k as int], shown, k as int));
                reveal(cached);
            }
        }
        place_tokens(&mut tokens, &line.tokens, base);
        k = k + 1;
    }
    tokens
}

/// The line in which a byte stands.
fn line_at(starts: &Vec<usize>, position: usize, Ghost(document): Ghost<Seq<Seq<char>>>) -> (line:
    usize)
    requires
        starts_known(starts@, document),
        document.len() > 0,
        lines::start_of(document, 0) == 0,
    ensures
        edit::holds(document, line as int, position as nat),
{
    let mut low: usize = 0;
    let mut high: usize = starts.len();
    while high - low > 1
        invariant
            low < high <= starts@.len() == document.len(),
            starts_known(starts@, document),
            lines::start_of(document, low as int) <= position,
            high < document.len() ==> position < lines::start_of(document, high as int),
        decreases high - low,
    {
        let middle: usize = low + (high - low) / 2;
        if starts[middle] <= position {
            low = middle;
        } else {
            high = middle;
        }
    }
    low
}

/// Where the character at byte `position` of a text stands.
fn index_of(text: &Vec<char>, position: usize, Ghost(at): Ghost<int>) -> (index: usize)
    requires
        0 <= at <= text@.len(),
        chars::size(text@.take(at)) == position,
    ensures
        index == at,
{
    let mut index: usize = 0;
    let mut bytes: usize = 0;
    assert(text@.take(0) =~= Seq::<char>::empty());
    proof {
        chars::lemma_size_position(text@, 0, at);
    }
    while bytes < position
        invariant
            index <= at <= text@.len(),
            chars::size(text@.take(at)) == position,
            bytes == chars::size(text@.take(index as int)),
            bytes < position <==> index < at,
        decreases at - index,
    {
        proof {
            chars::lemma_size_position(text@, index + 1, at);
            chars::lemma_size_position(text@, at, index + 1);
            assert(text@.take(index + 1) =~= text@.take(index as int).push(text@[index as int]));
            chars::lemma_size_push(text@.take(index as int), text@[index as int]);
        }
        let count: usize = text.len();
        assert(index < count);
        bytes = bytes + width_of(text[index]);
        index = index + 1;
    }
    index
}

/// The characters of the lines from `first` to `last`.
fn region_text(cache: &Vec<CachedLine>, first: usize, last: usize) -> (text: Vec<char>)
    requires
        first <= last < cache@.len(),
    ensures
        text@ == lines::flat(contents(cache@).subrange(first as int, last + 1)),
{
    let ghost shown = contents(cache@);
    let mut text: Vec<char> = Vec::new();
    let mut k: usize = first;
    assert(shown.subrange(first as int, first as int) =~= Seq::<Seq<char>>::empty());
    let count: usize = cache.len();
    assert(last < count);
    let stop: usize = last + 1;
    while k < stop
        invariant
            first <= k <= stop == last + 1 <= cache@.len(),
            shown == contents(cache@),
            text@ == lines::flat(shown.subrange(first as int, k as int)),
        decreases stop - k,
    {
        proof {
            assert(shown.subrange(first as int, k + 1) =~= shown.subrange(
                first as int,
                k as int,
            ).push(shown[k as int]));
            lines::lemma_flat_push(shown.subrange(first as int, k as int), shown[k as int]);
        }
        let mut i: usize = 0;
        let ghost before = text@;
        let ghost line = cache@[k as int].content@;
        assert(before + line.take(0) =~= before);
        while i < cache[k].content.len()
            invariant
                k < cache@.len(),
                line == cache@[k as int].content@,
                i <= line.len(),
                text@ == before + line.take(i as int),
            decreases line.len() - i,
        {
            text.push(cache[k].content[i]);
            assert(text@ =~= before + line.take(i + 1));
            i = i + 1;
        }
        assert(line.take(line.len() as int) =~= line);
        k = k + 1;
    }
    text
}

/// A text with the characters from `from` to `to` replaced.
fn spliced(text: &Vec<char>, from: usize, to: usize, replacement: &Vec<char>) -> (result: Vec<char>)
    requires
        from <= to <= text@.len(),
    ensures
        result@ == text@.take(from as int) + replacement@ + text@.skip(to as int),
{
    let mut result: Vec<char> = Vec::new();
    let mut i: usize = 0;
    while i < from
        invariant
            i <= from <= text@.len(),
            result@ == text@.take(i as int),
        decreases from - i,
    {
        result.push(text[i]);
        assert(text@.take(i + 1) =~= text@.take(i as int).push(text@[i as int]));
        i = i + 1;
    }
    let ghost head = result@;
    let mut j: usize = 0;
    assert(head =~= head + replacement@.take(0));
    while j < replacement.len()
        invariant
            j <= replacement@.len(),
            result@ == head + replacement@.take(j as int),
        decreases replacement@.len() - j,
    {
        result.push(replacement[j]);
        assert(result@ =~= head + replacement@.take(j + 1));
        j = j + 1;
    }
    assert(replacement@.take(replacement@.len() as int) =~= replacement@);
    let ghost body = result@;
    let mut k: usize = to;
    assert(body =~= body + text@.subrange(to as int, to as int));
    while k < text.len()
        invariant
            to <= k <= text@.len(),
            result@ == body + text@.subrange(to as int, k as int),
        decreases text@.len() - k,
    {
        result.push(text[k]);
        assert(result@ =~= body + text@.subrange(to as int, k + 1));
        k = k + 1;
    }
    assert(result@ =~= head + replacement@ + text@.skip(to as int));
    result
}

fn rebase_position(start: usize, old_end: usize, inserted: usize, position: usize, Ghost(
    change,
): Ghost<Change>) -> (moved: Option<usize>)
    requires
        start == change.start,
        old_end == change.old_end,
        start <= old_end,
        inserted == chars::size(change.replacement),
        position - (old_end - start) + inserted <= usize::MAX,
    ensures
        match moved {
            Some(moved) => edit::moved(change, position as nat) == Some(moved as nat),
            None => edit::moved(change, position as nat) is None,
        },
{
    if position < start {
        Some(position)
    } else if position >= old_end {
        Some(position - (old_end - start) + inserted)
    } else {
        None
    }
}

/// Where a construct that is still open was opened.
spec fn opener(mode: Mode) -> nat {
    match mode {
        Mode::Normal => 0,
        Mode::Quoted { start, .. } => start,
        Mode::Commented { start } => start,
    }
}

fn rebase_state(start: usize, old_end: usize, inserted: usize, state: LexState, Ghost(
    change,
): Ghost<Change>) -> (moved: Option<LexState>)
    requires
        start == change.start,
        old_end == change.old_end,
        start <= old_end,
        inserted == chars::size(change.replacement),
        opener(state@) - (old_end - start) + inserted <= usize::MAX,
    ensures
        match moved {
            Some(moved) => edit::rebased(change, state@) == Some(moved@),
            None => edit::rebased(change, state@) is None,
        },
{
    match state {
        LexState::Normal => Some(LexState::Normal),
        LexState::String { escaped, start: position } => match rebase_position(
            start,
            old_end,
            inserted,
            position,
            Ghost(change),
        ) {
            Some(start) => Some(LexState::String { escaped, start }),
            None => None,
        },
        LexState::BlockComment { start: position } => match rebase_position(
            start,
            old_end,
            inserted,
            position,
            Ghost(change),
        ) {
            Some(start) => Some(LexState::BlockComment { start }),
            None => None,
        },
    }
}

/// What is still open after part of a line was opened before its end.
proof fn lemma_scan_opener(line: Seq<char>, base: nat, i: int, mode: Mode)
    requires
        0 <= i <= line.len(),
        opener(mode) <= base + chars::size(line.take(i)),
    ensures
        opener(scan::scan(line, base, i, mode).mode) <= base + chars::size(line),
    decreases line.len() - i,
{
    chars::lemma_size_take(line, i, i);
    if i < line.len() {
        let next = scan::lexeme(line, base, i, mode);
        scan::lemma_lexeme(line, base, i, mode);
        chars::lemma_size_take(line, i, next.end);
        assert(opener(next.mode) <= base + chars::size(line.take(i))) by {
            reveal(scan::lexeme);
        }
        lemma_scan_opener(line, base, next.end, next.mode);
    }
}

/// What is open where a line begins was opened before it.
proof fn lemma_opener(document: Seq<Seq<char>>, k: int)
    requires
        0 <= k <= document.len(),
    ensures
        opener(lex::mode_at(document, k)) <= lines::start_of(document, k),
        lines::start_of(document, k) <= chars::size(lines::flat(document)),
    decreases k,
{
    lines::lemma_start_monotone(document, k, k);
    if k > 0 {
        lemma_opener(document, k - 1);
        lines::lemma_start(document, k - 1);
        let line = document[k - 1];
        assert(line.take(0) =~= Seq::<char>::empty());
        lemma_scan_opener(
            line,
            lines::start_of(document, k - 1),
            0,
            lex::mode_at(document, k - 1),
        );
    }
}

/// An edit, the lines before it and what it made of them.
struct Splice {
    old_lines: Seq<Seq<char>>,
    first: int,
    last: int,
    middle: Seq<Seq<char>>,
    change: Change,
}

impl Splice {
    spec fn new_lines(self) -> Seq<Seq<char>> {
        edit::respliced(self.old_lines, self.first, self.last, self.middle)
    }

    /// How many lines further a kept line stands in the old document.
    spec fn offset(self) -> int {
        self.old_lines.len() - self.new_lines().len()
    }

    spec fn sound(self) -> bool {
        &&& 0 <= self.first <= self.last < self.old_lines.len()
        &&& self.change.start <= self.change.old_end <= lines::start_of(
            self.old_lines,
            self.last + 1,
        )
        &&& chars::size(lines::flat(self.middle)) + self.change.old_end - self.change.start
            == chars::size(lines::flat(self.old_lines.subrange(self.first, self.last + 1)))
            + chars::size(self.change.replacement)
        &&& chars::size(lines::flat(self.old_lines)) <= usize::MAX
        &&& chars::size(lines::flat(self.new_lines())) <= usize::MAX
        &&& chars::size(lines::flat(self.old_lines)) - (self.change.old_end - self.change.start)
            + chars::size(self.change.replacement) <= usize::MAX
    }

    /// Line `k` of the new document holds what it held in the old one.
    spec fn kept(self, line: CachedLine, k: int) -> bool {
        &&& k + self.offset() > self.last
        &&& cached(line, self.old_lines, k + self.offset())
    }

    spec fn settles(self, j: int) -> bool {
        settles(self.old_lines, self.new_lines(), self.change, self.last, j)
    }
}

/// The numbers of an edit that rebasing needs.
#[derive(Clone, Copy)]
struct EditTransform {
    start: usize,
    old_end: usize,
    inserted: usize,
}

impl EditTransform {
    spec fn of(self, change: Change) -> bool {
        &&& self.start == change.start
        &&& self.old_end == change.old_end
        &&& self.inserted == chars::size(change.replacement)
    }
}

fn rebase_cached(
    state: LexState,
    transform: EditTransform,
    Ghost(splice): Ghost<Splice>,
    Ghost(o): Ghost<int>,
) -> (moved: Option<LexState>)
    requires
        splice.sound(),
        transform.of(splice.change),
        0 <= o <= splice.old_lines.len(),
        state@ == lex::mode_at(splice.old_lines, o),
    ensures
        match moved {
            Some(moved) => edit::rebased(splice.change, state@) == Some(moved@),
            None => edit::rebased(splice.change, state@) is None,
        },
{
    proof {
        lemma_opener(splice.old_lines, o);
    }
    rebase_state(
        transform.start,
        transform.old_end,
        transform.inserted,
        state,
        Ghost(splice.change),
    )
}

/// Whether a line, still as it was before the edit, settles.
fn has_settled(
    line: &CachedLine,
    transform: EditTransform,
    incoming: LexState,
    outgoing: LexState,
    Ghost(splice): Ghost<Splice>,
    Ghost(k): Ghost<int>,
) -> (settled: bool)
    requires
        splice.sound(),
        transform.of(splice.change),
        0 <= k < splice.new_lines().len(),
        line.valid ==> splice.kept(*line, k),
        !line.valid ==> k + splice.offset() <= splice.last,
        incoming@ == lex::mode_at(splice.new_lines(), k),
        outgoing@ == lex::mode_at(splice.new_lines(), k + 1),
    ensures
        settled == splice.settles(k),
{
    proof {
        reveal(cached);
        reveal(settles);
    }
    if !line.valid {
        return false;
    }
    let ghost o = k + splice.offset();
    let was_incoming = rebase_cached(line.incoming, transform, Ghost(splice), Ghost(o));
    let was_outgoing = rebase_cached(line.outgoing, transform, Ghost(splice), Ghost(o + 1));
    match (was_incoming, was_outgoing) {
        (Some(a), Some(b)) => a == incoming && b == outgoing,
        _ => false,
    }
}

/// Rebases the states of one kept line after the line that settled.
fn rebase_line(
    incoming: LexState,
    outgoing: LexState,
    transform: EditTransform,
    Ghost(splice): Ghost<Splice>,
    Ghost(line): Ghost<CachedLine>,
    Ghost(from): Ghost<int>,
    Ghost(k): Ghost<int>,
) -> (moved: (LexState, LexState))
    requires
        splice.sound(),
        transform.of(splice.change),
        splice.kept(line, k),
        line.incoming == incoming,
        line.outgoing == outgoing,
        0 <= from <= k < splice.new_lines().len(),
        splice.last < from + splice.offset(),
        edit::rebased(
            splice.change,
            lex::mode_at(splice.old_lines, from + splice.offset()),
        ) == Some(lex::mode_at(splice.new_lines(), from)),
    ensures
        moved.0@ == lex::mode_at(splice.new_lines(), k),
        moved.1@ == lex::mode_at(splice.new_lines(), k + 1),
        scan::spans(line.tokens@) == lex::scan_at(splice.new_lines(), k).tokens,
{
    let ghost o = k + splice.offset();
    proof {
        reveal(cached);
        edit::lemma_suffix_modes(
            splice.old_lines,
            splice.first,
            splice.last,
            splice.middle,
            splice.change,
            from + splice.offset(),
            o,
        );
        edit::lemma_suffix_modes(
            splice.old_lines,
            splice.first,
            splice.last,
            splice.middle,
            splice.change,
            from + splice.offset(),
            o + 1,
        );
    }
    let new_incoming = rebase_cached(incoming, transform, Ghost(splice), Ghost(o));
    let new_outgoing = rebase_cached(outgoing, transform, Ghost(splice), Ghost(o + 1));
    match (new_incoming, new_outgoing) {
        (Some(a), Some(b)) => (a, b),
        _ => (incoming, outgoing),
    }
}

/// Rebases the lines from `from` on.
fn rebase_suffix(
    cache: &mut Vec<CachedLine>,
    from: usize,
    transform: EditTransform,
    Ghost(splice): Ghost<Splice>,
)
    requires
        splice.sound(),
        transform.of(splice.change),
        contents(old(cache)@) == splice.new_lines(),
        from <= old(cache)@.len(),
        forall|k: int|
            from <= k < old(cache)@.len() ==> splice.kept(#[trigger] old(cache)@[k], k),
        from < old(cache)@.len() ==> splice.last < from + splice.offset(),
        from < old(cache)@.len() ==> edit::rebased(
            splice.change,
            lex::mode_at(splice.old_lines, from + splice.offset()),
        ) == Some(lex::mode_at(splice.new_lines(), from as int)),
    ensures
        contents(final(cache)@) == splice.new_lines(),
        final(cache)@.len() == old(cache)@.len(),
        forall|k: int| 0 <= k < from ==> #[trigger] final(cache)@[k] == old(cache)@[k],
        forall|k: int|
            from <= k < final(cache)@.len() ==> cached(
                #[trigger] final(cache)@[k],
                splice.new_lines(),
                k,
            ),
{
    let ghost before = cache@;
    let mut k: usize = from;
    while k < cache.len()
        invariant
            from <= k <= cache@.len() == before.len(),
            splice.sound(),
            transform.of(splice.change),
            before.len() == splice.new_lines().len(),
            contents(cache@) == splice.new_lines(),
            forall|k: int| from <= k < before.len() ==> splice.kept(#[trigger] before[k], k),
            from < before.len() ==> splice.last < from + splice.offset(),
            from < before.len() ==> edit::rebased(
                splice.change,
                lex::mode_at(splice.old_lines, from + splice.offset()),
            ) == Some(lex::mode_at(splice.new_lines(), from as int)),
            forall|j: int| 0 <= j < from ==> #[trigger] cache@[j] == before[j],
            forall|j: int| k <= j < cache@.len() ==> #[trigger] cache@[j] == before[j],
            forall|j: int|
                from <= j < k ==> cached(#[trigger] cache@[j], splice.new_lines(), j),
        decreases cache@.len() - k,
    {
        let ghost earlier = cache@;
        assert(cache@[k as int] == before[k as int]);
        let incoming = cache[k].incoming;
        let outgoing = cache[k].outgoing;
        let (incoming, outgoing) = rebase_line(
            incoming,
            outgoing,
            transform,
            Ghost(splice),
            Ghost(before[k as int]),
            Ghost(from as int),
            Ghost(k as int),
        );
        cache[k].incoming = incoming;
        cache[k].outgoing = outgoing;
        assert(contents(cache@) =~= contents(earlier));
        assert(cached(cache@[k as int], splice.new_lines(), k as int)) by {
            assert(splice.kept(before[k as int], k as int));
            reveal(cached);
        }
        k = k + 1;
    }
}

/// The work of relexing from line `first` on.
spec fn relexed(splice: Splice, work: EditWork) -> bool {
    let stop = splice.first + work.lines_relexed - 1;
    &&& work.lines_relexed > 0
    &&& stop < splice.new_lines().len()
    &&& forall|j: int| splice.first <= j < stop ==> !#[trigger] splice.settles(j)
    &&& work.converged == splice.settles(stop)
    &&& !work.converged ==> stop == splice.new_lines().len() - 1
    &&& work.bytes_scanned == lines::start_of(splice.new_lines(), stop + 1) - lines::start_of(
        splice.new_lines(),
        splice.first,
    )
    &&& work.scanned_to_eof == (stop == splice.new_lines().len() - 1)
}

/// A line as it is before it is relexed: kept from the old document, or new.
spec fn unscanned(splice: Splice, line: CachedLine, k: int) -> bool {
    &&& line.valid ==> splice.kept(line, k)
    &&& !line.valid ==> k + splice.offset() <= splice.last
}

/// The line after one that settled begins in the state that it had.
proof fn lemma_settled(splice: Splice, k: int)
    requires
        splice.settles(k),
    ensures
        k + splice.offset() > splice.last,
        edit::rebased(splice.change, lex::mode_at(splice.old_lines, k + 1 + splice.offset()))
            == Some(lex::mode_at(splice.new_lines(), k + 1)),
{
    reveal(settles);
}

/// Once a line settles, what follows was kept.
proof fn lemma_rest_kept(splice: Splice, lines: Seq<CachedLine>, k: int)
    requires
        k + splice.offset() > splice.last,
        forall|j: int| k < j < lines.len() ==> unscanned(splice, #[trigger] lines[j], j),
    ensures
        forall|j: int| k < j < lines.len() ==> splice.kept(#[trigger] lines[j], j),
{
    assert forall|j: int| k < j < lines.len() implies splice.kept(#[trigger] lines[j], j) by {
        assert(unscanned(splice, lines[j], j));
    }
}

/// Scans line `k` anew and says whether it settled.
fn relex_line(
    cache: &mut Vec<CachedLine>,
    k: usize,
    base: usize,
    incoming: LexState,
    transform: EditTransform,
    Ghost(splice): Ghost<Splice>,
) -> (outcome: (LexState, usize, bool))
    requires
        splice.sound(),
        transform.of(splice.change),
        k < old(cache)@.len(),
        contents(old(cache)@) == splice.new_lines(),
        base == lines::start_of(splice.new_lines(), k as int),
        incoming@ == lex::mode_at(splice.new_lines(), k as int),
        unscanned(splice, old(cache)@[k as int], k as int),
    ensures
        contents(final(cache)@) == splice.new_lines(),
        final(cache)@.len() == old(cache)@.len(),
        forall|j: int|
            0 <= j < old(cache)@.len() && j != k ==> #[trigger] final(cache)@[j] == old(cache)@[j],
        cached(final(cache)@[k as int], splice.new_lines(), k as int),
        outcome.0@ == lex::mode_at(splice.new_lines(), k + 1),
        outcome.1 == chars::size(splice.new_lines()[k as int]),
        outcome.2 == splice.settles(k as int),
{
    let ghost before = cache@;
    let ghost shown = splice.new_lines();
    proof {
        assert(shown[k as int] == cache@[k as int].content@);
        lines::lemma_start(shown, k as int);
    }
    let (tokens, outgoing) = scan_line(&cache[k].content, base, incoming);
    let bytes: usize = line_size(&cache[k].content);
    let settled = has_settled(
        &cache[k],
        transform,
        incoming,
        outgoing,
        Ghost(splice),
        Ghost(k as int),
    );
    cache[k].incoming = incoming;
    cache[k].outgoing = outgoing;
    cache[k].tokens = tokens;
    cache[k].valid = true;
    assert(contents(cache@) =~= contents(before));
    assert(cached(cache@[k as int], shown, k as int)) by {
        reveal(cached);
    }
    (outgoing, bytes, settled)
}

#[verifier::spinoff_prover]
#[verifier::rlimit(80)]
fn relex(
    cache: &mut Vec<CachedLine>,
    starts: &Vec<usize>,
    first: usize,
    transform: EditTransform,
    Ghost(splice): Ghost<Splice>,
) -> (work: EditWork)
    requires
        splice.sound(),
        transform.of(splice.change),
        first == splice.first,
        first < old(cache)@.len(),
        contents(old(cache)@) == splice.new_lines(),
        starts_known(starts@, splice.new_lines()),
        forall|k: int| 0 <= k < first ==> cached(#[trigger] old(cache)@[k], splice.new_lines(), k),
        forall|k: int|
            first <= k < old(cache)@.len() ==> unscanned(splice, #[trigger] old(cache)@[k], k),
    ensures
        contents(final(cache)@) == splice.new_lines(),
        forall|k: int|
            0 <= k < final(cache)@.len() ==> cached(
                #[trigger] final(cache)@[k],
                splice.new_lines(),
                k,
            ),
        relexed(splice, work),
{
    let ghost shown = splice.new_lines();
    let ghost original = cache@;
    let mut state = if first == 0 {
        LexState::Normal
    } else {
        cache[first - 1].outgoing
    };
    assert(state@ == lex::mode_at(shown, first as int)) by {
        if first > 0 {
            assert(cached(cache@[first - 1], shown, first - 1));
            reveal(cached);
        }
    }
    let mut bytes_scanned: usize = 0;
    let mut k: usize = first;
    while k < cache.len()
        invariant
            first <= k <= cache@.len() == original.len() == shown.len(),
            splice.sound(),
            transform.of(splice.change),
            first == splice.first,
            first < cache@.len(),
            shown == splice.new_lines(),
            contents(cache@) == shown,
            starts_known(starts@, shown),
            forall|j: int| 0 <= j < k ==> cached(#[trigger] cache@[j], shown, j),
            forall|j: int| k <= j < cache@.len() ==> unscanned(splice, #[trigger] cache@[j], j),
            forall|j: int| first <= j < k ==> !#[trigger] splice.settles(j),
            state@ == lex::mode_at(shown, k as int),
            bytes_scanned == lines::start_of(shown, k as int) - lines::start_of(
                shown,
                first as int,
            ),
        decreases cache@.len() - k,
    {
        let ghost before = cache@;
        assert(unscanned(splice, cache@[k as int], k as int));
        let (outgoing, bytes, settled) = relex_line(
            cache,
            k,
            starts[k],
            state,
            transform,
            Ghost(splice),
        );
        proof {
            lines::lemma_start(shown, k as int);
            lines::lemma_start_monotone(shown, first as int, k as int);
        }
        bytes_scanned = bytes_scanned + bytes;
        if settled {
            let count: usize = cache.len();
            assert(k < count);
            proof {
                assert forall|j: int| k < j < cache@.len() implies unscanned(
                    splice,
                    #[trigger] cache@[j],
                    j,
                ) by {
                    assert(cache@[j] == before[j]);
                    assert(unscanned(splice, before[j], j));
                }
                lemma_settled(splice, k as int);
                lemma_rest_kept(splice, cache@, k as int);
            }
            let ghost scanned = cache@;
            rebase_suffix(cache, k + 1, transform, Ghost(splice));
            proof {
                assert forall|j: int| 0 <= j < cache@.len() implies cached(
                    #[trigger] cache@[j],
                    shown,
                    j,
                ) by {
                    if j < k {
                        assert(cache@[j] == scanned[j] && scanned[j] == before[j]);
                        assert(cached(before[j], shown, j));
                    } else if j == k {
                        assert(cache@[j] == scanned[j]);
                    }
                }
            }
            return EditWork {
                lines_relexed: k - first + 1,
                bytes_scanned,
                converged: true,
                scanned_to_eof: k == count - 1,
            };
        }
        proof {
            assert forall|j: int| 0 <= j < k + 1 implies cached(#[trigger] cache@[j], shown, j) by {
                if j < k {
                    assert(cache@[j] == before[j]);
                    assert(cached(before[j], shown, j));
                }
            }
            assert forall|j: int| k + 1 <= j < cache@.len() implies unscanned(
                splice,
                #[trigger] cache@[j],
                j,
            ) by {
                assert(cache@[j] == before[j]);
                assert(unscanned(splice, before[j], j));
            }
        }
        state = outgoing;
        k = k + 1;
    }
    EditWork {
        lines_relexed: cache.len() - first,
        bytes_scanned,
        converged: false,
        scanned_to_eof: true,
    }
}

/// The document after an edit.
fn edited_text(document: &str, start: usize, old_end: usize, replacement: &str, Ghost(
    change,
): Ghost<Change>) -> (text: String)
    requires
        edit::edit_error(document@, change) is None,
        start == change.start,
        old_end == change.old_end,
        start <= old_end,
        replacement@ == change.replacement,
    ensures
        text@ == edit::edited(document@, change),
{
    let (before, _) = cut_at(document, start);
    let (upto, after) = cut_at(document, old_end);
    proof {
        let (i, j) = (before@.len() as int, upto@.len() as int);
        assert(document@.take(i) =~= before@);
        assert(document@.take(j) =~= upto@);
        edit::lemma_place(document@, i);
        edit::lemma_place(document@, j);
        assert(document@.skip(j) =~= after@);
    }
    let mut text = before.to_owned();
    text.append(replacement);
    text.append(after);
    text
}

/// Where each line begins.
fn starts_for(cache: &Vec<CachedLine>) -> (starts: Vec<usize>)
    requires
        chars::size(lines::flat(contents(cache@))) <= usize::MAX,
    ensures
        starts_known(starts@, contents(cache@)),
{
    let ghost shown = contents(cache@);
    let mut starts: Vec<usize> = Vec::new();
    let mut cursor: usize = 0;
    let mut k: usize = 0;
    proof {
        assert(shown.take(0) =~= Seq::<Seq<char>>::empty());
    }
    while k < cache.len()
        invariant
            k <= cache@.len() == shown.len(),
            shown == contents(cache@),
            chars::size(lines::flat(shown)) <= usize::MAX,
            starts@.len() == k,
            cursor == lines::start_of(shown, k as int),
            forall|j: int| 0 <= j < k ==> (#[trigger] starts@[j]) == lines::start_of(shown, j),
        decreases cache@.len() - k,
    {
        proof {
            lines::lemma_start(shown, k as int);
            assert(shown[k as int] == cache@[k as int].content@);
        }
        starts.push(cursor);
        cursor = cursor + line_size(&cache[k].content);
        k = k + 1;
    }
    starts
}

/// The lines of the edited region.
fn region_lines(
    cache: &Vec<CachedLine>,
    starts: &Vec<usize>,
    first: usize,
    last: usize,
    edit: &Edit,
    old_end: usize,
    Ghost(document): Ghost<Seq<char>>,
) -> (found: (Vec<Vec<char>>, Ghost<Seq<char>>))
    requires
        contents(cache@) == lines::lines_of(document),
        starts_known(starts@, contents(cache@)),
        edit::edit_error(document, edit@) is None,
        old_end == edit@.old_end,
        edit::region(contents(cache@), edit@, first as int, last as int),
        first <= last < cache@.len(),
        lines::start_of(contents(cache@), first as int) <= edit.start,
    ensures
        ({
            let old_text = lines::flat(contents(cache@).subrange(first as int, last + 1));
            let before = lines::flat(contents(cache@).take(first as int)).len();
            let text = found.1@;
            &&& text == old_text.take(edit::place(document, edit@.start) - before)
                + edit@.replacement + old_text.skip(edit::place(document, edit@.old_end) - before)
            &&& lines::texts(found.0@) == if last + 1 < cache@.len() {
                lines::lines_of(text).drop_last()
            } else {
                lines::lines_of(text)
            }
        }),
        found.0@.len() > 0,
{
    let ghost shown = contents(cache@);
    let text = region_text(cache, first, last);
    let ghost (i, j) = (
        edit::place(document, edit@.start),
        edit::place(document, edit@.old_end),
    );
    let ghost prefix = lines::flat(shown.take(first as int));
    proof {
        lemma_edit_within(document, edit@, first as int, last as int);
    }
    let from = index_of(&text, edit.start - starts[first], Ghost(i - prefix.len()));
    let to = index_of(&text, old_end - starts[first], Ghost(j - prefix.len()));
    let replacement = chars_of(edit.replacement.as_str());
    let edited = spliced(&text, from, to, &replacement);
    let mut slices = line_slices(&edited);
    proof {
        lines::lemma_lines_split(edited@);
    }
    let ghost whole = slices@;
    assert(last < cache@.len());
    if last < cache.len() - 1 {
        proof {
            lemma_region_ends(document, edit@, first as int, last as int, edited@);
        }
        slices.pop();
        assert(lines::texts(slices@) =~= lines::lines_of(edited@).drop_last());
    }
    (slices, Ghost(edited@))
}

/// The edit stands within its region.
#[verifier::spinoff_prover]
#[verifier::rlimit(60)]
proof fn lemma_edit_within(document: Seq<char>, change: Change, first: int, last: int)
    requires
        edit::edit_error(document, change) is None,
        change.start <= change.old_end,
        edit::region(lines::lines_of(document), change, first, last),
    ensures
        ({
            let shown = lines::lines_of(document);
            let prefix = lines::flat(shown.take(first));
            let text = lines::flat(shown.subrange(first, last + 1));
            let a = edit::place(document, change.start) - prefix.len();
            let b = edit::place(document, change.old_end) - prefix.len();
            &&& 0 <= a <= b <= text.len()
            &&& chars::size(text.take(a)) == change.start - lines::start_of(shown, first)
            &&& chars::size(text.take(b)) == change.old_end - lines::start_of(shown, first)
            &&& last + 1 < shown.len() ==> b <= lines::flat(shown.subrange(first, last)).len()
        }),
{
    let shown = lines::lines_of(document);
    lines::lemma_lines_split(document);
    let touched = choose|touched: int| #[trigger]
        edit::holds(shown, touched, edit::touched_position(change)) && last == edit::region_end(
            shown,
            touched,
        );
    edit::lemma_region_bounds(shown, change, first, last, touched);
    edit::lemma_three_parts(shown, first, last);
    let (i, j) = (edit::place(document, change.start), edit::place(document, change.old_end));
    edit::lemma_place_of(document, change.start);
    edit::lemma_place_of(document, change.old_end);
    let prefix = lines::flat(shown.take(first));
    let text = lines::flat(shown.subrange(first, last + 1));
    let reach = (prefix.len() + text.len()) as int;
    assert(document.take(prefix.len() as int) =~= prefix);
    assert(document.take(reach) =~= prefix + text);
    chars::lemma_size_position(document, i, prefix.len() as int);
    chars::lemma_size_position(document, i, j);
    chars::lemma_size_position(document, reach, j);
    let (a, b) = (i - prefix.len(), j - prefix.len());
    assert(document.take(i) =~= prefix + text.take(a));
    assert(document.take(j) =~= prefix + text.take(b));
    chars::lemma_size_concat(prefix, text.take(a));
    chars::lemma_size_concat(prefix, text.take(b));
    if last + 1 < shown.len() {
        let head = lines::flat(shown.subrange(first, last));
        assert(shown.take(last) =~= shown.take(first) + shown.subrange(first, last));
        lines::lemma_flat_concat(shown.take(first), shown.subrange(first, last));
        assert(shown.subrange(first, last + 1) =~= shown.subrange(first, last).push(shown[last]));
        lines::lemma_flat_push(shown.subrange(first, last), shown[last]);
        let stop = (prefix.len() + head.len()) as int;
        assert(document.take(stop) =~= prefix + head);
        chars::lemma_size_position(document, stop, j);
    }
}

/// Unless it reaches the end of the document, an edited region ends with a line
/// feed.
proof fn lemma_region_ends(
    document: Seq<char>,
    change: Change,
    first: int,
    last: int,
    edited: Seq<char>,
)
    requires
        edit::edit_error(document, change) is None,
        change.start <= change.old_end,
        edit::region(lines::lines_of(document), change, first, last),
        0 <= first <= last,
        last + 1 < lines::lines_of(document).len(),
        ({
            let shown = lines::lines_of(document);
            let text = lines::flat(shown.subrange(first, last + 1));
            let before = lines::flat(shown.take(first)).len();
            edited == text.take(edit::place(document, change.start) - before)
                + change.replacement + text.skip(edit::place(document, change.old_end) - before)
        }),
    ensures
        lines::lines_of(edited).len() > 1,
{
    let shown = lines::lines_of(document);
    lines::lemma_lines_split(document);
    lemma_edit_within(document, change, first, last);
    assert(lines::complete(shown[last]));
    assert(shown.subrange(first, last + 1) =~= shown.subrange(first, last).push(shown[last]));
    lines::lemma_flat_push(shown.subrange(first, last), shown[last]);
    assert(edited.last() == shown[last].last());
    edit::lemma_ended(edited);
}

/// Puts new lines in the place of those from `first` to `last`.
fn replace_lines(
    cache: &mut Vec<CachedLine>,
    first: usize,
    last: usize,
    middle: Vec<Vec<char>>,
    Ghost(splice): Ghost<Splice>,
)
    requires
        splice.old_lines == contents(old(cache)@),
        splice.first == first,
        splice.last == last,
        splice.middle == lines::texts(middle@),
        first <= last < old(cache)@.len(),
        forall|k: int|
            0 <= k < old(cache)@.len() ==> cached(#[trigger] old(cache)@[k], splice.old_lines, k),
    ensures
        contents(final(cache)@) == splice.new_lines(),
        forall|k: int|
            0 <= k < first ==> cached(#[trigger] final(cache)@[k], splice.new_lines(), k),
        forall|k: int|
            first <= k < final(cache)@.len() ==> unscanned(splice, #[trigger] final(cache)@[k], k),
{
    let ghost before = cache@;
    let count: usize = cache.len();
    assert(last < count);
    let mut suffix = cache.split_off(last + 1);
    cache.truncate(first);
    let ghost rest = suffix@;
    for line in it: middle
        invariant
            it.seq() == middle@,
            cache@.len() == first + it.index(),
            it.index() <= middle@.len(),
            first <= before.len(),
            forall|k: int| 0 <= k < first ==> #[trigger] cache@[k] == before[k],
            forall|k: int|
                first <= k < cache@.len() ==> !(#[trigger] cache@[k]).valid && cache@[k].content@
                    == middle@[k - first]@,
    {
        cache.push(
            CachedLine {
                content: line,
                incoming: LexState::Normal,
                outgoing: LexState::Normal,
                tokens: Vec::new(),
                valid: false,
            },
        );
    }
    let ghost front = cache@;
    cache.append(&mut suffix);
    proof {
        let shown = splice.new_lines();
        assert(cache@ == front + rest);
        assert forall|k: int| 0 <= k < cache@.len() implies contents(cache@)[k] == shown[k] by {
            if k < first {
                assert(cache@[k] == before[k]);
                assert(splice.old_lines[k] == before[k].content@);
            } else if k < first + middle@.len() {
                assert(cache@[k] == front[k]);
                assert(splice.middle[k - first] == middle@[k - first]@);
            } else {
                let o = k - first - middle@.len() + last + 1;
                assert(cache@[k] == before[o]);
                assert(splice.old_lines[o] == before[o].content@);
            }
        }
        assert(contents(cache@) =~= shown);
        assert forall|k: int| 0 <= k < first implies cached(#[trigger] cache@[k], shown, k) by {
            assert(cache@[k] == before[k]);
            assert(cached(before[k], splice.old_lines, k));
            assert forall|j: int| 0 <= j < k + 1 implies splice.old_lines[j] == shown[j] by {}
            edit::lemma_prefix_modes(splice.old_lines, shown, k);
            edit::lemma_prefix_modes(splice.old_lines, shown, k + 1);
            reveal(cached);
        }
        assert forall|k: int| first <= k < cache@.len() implies unscanned(
            splice,
            #[trigger] cache@[k],
            k,
        ) by {
            if k < first + middle@.len() {
                assert(cache@[k] == front[k]);
            } else {
                let o = k - first - middle@.len() + last + 1;
                assert(cache@[k] == before[o]);
                assert(cached(before[o], splice.old_lines, o));
                assert(k + splice.offset() == o);
                reveal(cached);
            }
        }
    }
}

} // verus!
