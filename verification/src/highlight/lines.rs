//! The lines of a document.

use vstd::prelude::*;
use crate::chars;

verus! {

/// The text of lines put together again.
pub open spec fn flat(lines: Seq<Seq<char>>) -> Seq<char>
    decreases lines.len(),
{
    if lines.len() == 0 {
        Seq::empty()
    } else {
        flat(lines.drop_last()) + lines.last()
    }
}

/// No line feed.
pub open spec fn unbroken(s: Seq<char>) -> bool {
    forall|i: int| 0 <= i < s.len() ==> #[trigger] s[i] != '\n'
}

/// A line with its line feed.
pub open spec fn complete(line: Seq<char>) -> bool {
    line.len() > 0 && line.last() == '\n' && unbroken(line.drop_last())
}

/// Lines, each but the last with its line feed.
pub open spec fn well_split(lines: Seq<Seq<char>>) -> bool {
    &&& lines.len() > 0
    &&& forall|k: int| 0 <= k < lines.len() - 1 ==> complete(#[trigger] lines[k])
    &&& unbroken(lines.last())
}

pub open spec fn splits(lines: Seq<Seq<char>>, document: Seq<char>) -> bool {
    well_split(lines) && flat(lines) == document
}

/// Lines after one character more.
pub open spec fn extended(lines: Seq<Seq<char>>, c: char) -> Seq<Seq<char>> {
    let grown = lines.drop_last().push(lines.last().push(c));
    if c == '\n' {
        grown.push(Seq::empty())
    } else {
        grown
    }
}

/// The lines of a document: a line feed ends its line, and what follows the last
/// one is a line too.
pub open spec fn lines_of(document: Seq<char>) -> Seq<Seq<char>>
    decreases document.len(),
{
    if document.len() == 0 {
        seq![Seq::empty()]
    } else {
        extended(lines_of(document.drop_last()), document.last())
    }
}

/// Where line `k` begins, in bytes.
pub open spec fn start_of(lines: Seq<Seq<char>>, k: int) -> nat {
    chars::size(flat(lines.take(k)))
}

pub proof fn lemma_flat_push(lines: Seq<Seq<char>>, line: Seq<char>)
    ensures
        flat(lines.push(line)) == flat(lines) + line,
{
    assert(lines.push(line).drop_last() =~= lines);
}

pub proof fn lemma_flat_concat(a: Seq<Seq<char>>, b: Seq<Seq<char>>)
    ensures
        flat(a + b) == flat(a) + flat(b),
    decreases b.len(),
{
    if b.len() == 0 {
        assert(a + b =~= a);
        assert(flat(a) + flat(b) =~= flat(a));
    } else {
        lemma_flat_concat(a, b.drop_last());
        assert((a + b).drop_last() =~= a + b.drop_last());
        assert((flat(a) + flat(b.drop_last())) + b.last() =~= flat(a) + (flat(b.drop_last())
            + b.last()));
    }
}

/// A line further begins after the line before it.
pub proof fn lemma_start(lines: Seq<Seq<char>>, k: int)
    requires
        0 <= k < lines.len(),
    ensures
        start_of(lines, k + 1) == start_of(lines, k) + chars::size(lines[k]),
        start_of(lines, k + 1) <= chars::size(flat(lines)),
        start_of(lines, 0) == 0,
        start_of(lines, lines.len() as int) == chars::size(flat(lines)),
    decreases lines.len() - k,
{
    assert(lines.take(k + 1) =~= lines.take(k).push(lines[k]));
    lemma_flat_push(lines.take(k), lines[k]);
    chars::lemma_size_concat(flat(lines.take(k)), lines[k]);
    assert(lines.take(lines.len() as int) =~= lines);
    assert(lines.take(0) =~= Seq::<Seq<char>>::empty());
    lemma_start_bound(lines, k + 1);
}

proof fn lemma_start_bound(lines: Seq<Seq<char>>, k: int)
    requires
        0 <= k <= lines.len(),
    ensures
        start_of(lines, k) <= chars::size(flat(lines)),
{
    assert(lines =~= lines.take(k) + lines.skip(k));
    lemma_flat_concat(lines.take(k), lines.skip(k));
    chars::lemma_size_concat(flat(lines.take(k)), flat(lines.skip(k)));
}

pub proof fn lemma_start_monotone(lines: Seq<Seq<char>>, a: int, b: int)
    requires
        0 <= a <= b <= lines.len(),
    ensures
        start_of(lines, a) <= start_of(lines, b) <= chars::size(flat(lines)),
    decreases b - a,
{
    lemma_start_bound(lines, b);
    if a < b {
        lemma_start(lines, b - 1);
        lemma_start_monotone(lines, a, b - 1);
    }
}

/// The lines of a document split it.
pub proof fn lemma_lines_split(document: Seq<char>)
    ensures
        splits(lines_of(document), document),
    decreases document.len(),
{
    if document.len() == 0 {
        let lines = lines_of(document);
        assert(lines =~= Seq::<Seq<char>>::empty().push(Seq::empty()));
        lemma_flat_push(Seq::empty(), Seq::empty());
        assert(flat(lines) =~= document);
    } else {
        let before = lines_of(document.drop_last());
        lemma_lines_split(document.drop_last());
        lemma_extended(before, document.drop_last(), document.last());
        assert(document.drop_last().push(document.last()) =~= document);
    }
}

/// One character more extends the split.
pub proof fn lemma_extended(lines: Seq<Seq<char>>, document: Seq<char>, c: char)
    requires
        splits(lines, document),
    ensures
        splits(extended(lines, c), document.push(c)),
{
    let front = lines.drop_last();
    let line = lines.last().push(c);
    let grown = front.push(line);
    lemma_flat_push(front, line);
    assert(flat(grown) =~= document.push(c));
    assert(line.drop_last() =~= lines.last());
    if c == '\n' {
        lemma_flat_push(grown, Seq::empty());
        assert(flat(grown.push(Seq::empty())) =~= document.push(c));
        let all = grown.push(Seq::empty());
        assert forall|k: int| 0 <= k < all.len() - 1 implies complete(#[trigger] all[k]) by {
            if k < front.len() {
                assert(all[k] == lines[k]);
            }
        }
    } else {
        assert forall|k: int| 0 <= k < grown.len() - 1 implies complete(#[trigger] grown[k]) by {
            assert(grown[k] == lines[k]);
        }
    }
}

/// A document splits into lines in one way only.
pub proof fn lemma_split_unique(lines: Seq<Seq<char>>, document: Seq<char>)
    requires
        splits(lines, document),
    ensures
        lines == lines_of(document),
    decreases document.len(),
{
    let front = lines.drop_last();
    let last = lines.last();
    assert(lines =~= front.push(last));
    if document.len() == 0 {
        if lines.len() > 1 {
            let line = lines[lines.len() - 2];
            assert(complete(line));
            assert(front.last() == line);
            assert(flat(lines) == flat(front) + last);
            assert(flat(front) == flat(front.drop_last()) + line);
            assert(flat(lines).len() >= line.len());
        } else {
            assert(front =~= Seq::<Seq<char>>::empty());
            assert(flat(lines) =~= last);
            assert(last =~= Seq::<char>::empty());
            assert(lines =~= lines_of(document));
        }
    } else if last.len() > 0 {
        let shorter = front.push(last.drop_last());
        lemma_flat_push(front, last.drop_last());
        assert(flat(shorter) =~= document.drop_last());
        assert forall|k: int| 0 <= k < shorter.len() - 1 implies complete(#[trigger] shorter[k]) by {
            assert(shorter[k] == lines[k]);
        }
        assert(splits(shorter, document.drop_last()));
        lemma_split_unique(shorter, document.drop_last());
        assert(document.last() == last.last());
        assert(shorter.drop_last() =~= front);
        assert(last.drop_last().push(last.last()) =~= last);
        assert(extended(shorter, document.last()) =~= lines);
    } else {
        assert(flat(lines) =~= flat(front));
        assert(lines.len() > 1) by {
            if lines.len() == 1 {
                assert(front =~= Seq::<Seq<char>>::empty());
            }
        }
        let line = front.last();
        assert(complete(lines[lines.len() - 2]));
        assert(line == lines[lines.len() - 2]);
        let shorter = front.drop_last().push(line.drop_last());
        lemma_flat_push(front.drop_last(), line.drop_last());
        assert(document.last() == '\n');
        assert(flat(shorter) =~= document.drop_last());
        assert forall|k: int| 0 <= k < shorter.len() - 1 implies complete(#[trigger] shorter[k]) by {
            assert(shorter[k] == lines[k]);
        }
        assert(splits(shorter, document.drop_last()));
        lemma_split_unique(shorter, document.drop_last());
        assert(shorter.drop_last() =~= front.drop_last());
        assert(line.drop_last().push('\n') =~= line);
        assert(front.drop_last().push(line) =~= front);
        assert(last =~= Seq::<char>::empty());
        assert(extended(shorter, '\n') =~= lines);
    }
}

/// Lines as texts.
pub open spec fn texts(lines: Seq<Vec<char>>) -> Seq<Seq<char>> {
    lines.map_values(|line: Vec<char>| line@)
}

/// Splits a text into its lines.
pub fn line_slices(text: &Vec<char>) -> (lines: Vec<Vec<char>>)
    ensures
        texts(lines@) == lines_of(text@),
{
    let mut lines: Vec<Vec<char>> = Vec::new();
    let mut line: Vec<char> = Vec::new();
    let mut i: usize = 0;
    assert(text@.take(0) =~= Seq::<char>::empty());
    assert(texts(lines@).push(line@) =~= lines_of(text@.take(0)));
    while i < text.len()
        invariant
            i <= text@.len(),
            texts(lines@).push(line@) == lines_of(text@.take(i as int)),
        decreases text@.len() - i,
    {
        let c = text[i];
        let ghost before = texts(lines@).push(line@);
        proof {
            assert(text@.take(i + 1).drop_last() =~= text@.take(i as int));
            assert(before.drop_last() =~= texts(lines@));
        }
        let ghost finished = lines@;
        line.push(c);
        if c == '\n' {
            lines.push(line);
            line = Vec::new();
            proof {
                assert(texts(lines@) =~= texts(finished).push(before.last().push(c)));
            }
        }
        assert(texts(lines@).push(line@) =~= extended(before, c));
        i = i + 1;
    }
    assert(text@.take(text@.len() as int) =~= text@);
    let ghost finished = lines@;
    let ghost last = line@;
    lines.push(line);
    assert(texts(lines@) =~= texts(finished).push(last));
    lines
}

} // verus!
