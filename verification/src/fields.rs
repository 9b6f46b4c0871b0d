//! Text cut at separators.

use vstd::prelude::*;

verus! {

/// The first place at or after `from` that holds a character, or the end.
pub open spec fn find(text: Seq<char>, wanted: char, from: int) -> int
    decreases text.len() - from,
{
    if from < 0 || from >= text.len() || text[from] == wanted {
        from
    } else {
        find(text, wanted, from + 1)
    }
}

pub proof fn lemma_find(text: Seq<char>, wanted: char, from: int)
    requires
        0 <= from <= text.len(),
    ensures
        from <= find(text, wanted, from) <= text.len(),
        find(text, wanted, from) < text.len() ==> text[find(text, wanted, from)] == wanted,
        forall|i: int| from <= i < find(text, wanted, from) ==> text[i] != wanted,
    decreases text.len() - from,
{
    if from < text.len() && text[from] != wanted {
        lemma_find(text, wanted, from + 1);
    }
}

/// The fields of a text between separators.
pub open spec fn fields(text: Seq<char>, separator: char) -> Seq<Seq<char>>
    decreases text.len(),
{
    let stop = find(text, separator, 0);
    if stop < 0 || stop >= text.len() {
        seq![text]
    } else {
        seq![text.take(stop)] + fields(text.skip(stop + 1), separator)
    }
}

pub open spec fn views(parts: Seq<Vec<char>>) -> Seq<Seq<char>> {
    parts.map_values(|part: Vec<char>| part@)
}

/// A range of characters by itself.
pub fn part_of(text: &Vec<char>, from: usize, to: usize) -> (part: Vec<char>)
    requires
        from <= to <= text@.len(),
    ensures
        part@ == text@.subrange(from as int, to as int),
{
    let mut part: Vec<char> = Vec::new();
    let mut i: usize = from;
    while i < to
        invariant
            from <= i <= to <= text@.len(),
            part@ =~= text@.subrange(from as int, i as int),
        decreases to - i,
    {
        part.push(text[i]);
        i = i + 1;
    }
    part
}

/// Finds a character at or after a place.
pub fn find_char(text: &Vec<char>, wanted: char, from: usize) -> (at: usize)
    requires
        from <= text@.len(),
    ensures
        at == find(text@, wanted, from as int),
        from <= at <= text@.len(),
        at < text@.len() ==> text@[at as int] == wanted,
        forall|i: int| from <= i < at ==> text@[i] != wanted,
{
    let mut at: usize = from;
    while at < text.len() && text[at] != wanted
        invariant
            from <= at <= text@.len(),
            find(text@, wanted, from as int) == find(text@, wanted, at as int),
            forall|i: int| from <= i < at ==> text@[i] != wanted,
        decreases text@.len() - at,
    {
        at = at + 1;
    }
    at
}

proof fn lemma_find_skip(text: Seq<char>, wanted: char, from: int, skipped: int)
    requires
        0 <= skipped <= from <= text.len(),
    ensures
        find(text.skip(skipped), wanted, from - skipped) == find(text, wanted, from) - skipped,
    decreases text.len() - from,
{
    if from < text.len() && text[from] != wanted {
        lemma_find_skip(text, wanted, from + 1, skipped);
    }
}

/// The fields of a text between separators.
pub fn split(text: &Vec<char>, separator: char) -> (parts: Vec<Vec<char>>)
    ensures
        views(parts@) == fields(text@, separator),
{
    let mut parts: Vec<Vec<char>> = Vec::new();
    let mut from: usize = 0;
    assert(text@.skip(0) =~= text@);
    assert(views(parts@) + fields(text@.skip(0), separator) =~= fields(text@, separator));
    loop
        invariant
            from <= text@.len(),
            views(parts@) + fields(text@.skip(from as int), separator) == fields(
                text@,
                separator,
            ),
        decreases text@.len() - from,
    {
        let stop = find_char(text, separator, from);
        let ghost before = parts@;
        let ghost rest = text@.skip(from as int);
        let part = part_of(text, from, stop);
        proof {
            lemma_find_skip(text@, separator, from as int, from as int);
            assert(rest.take(stop - from) =~= part@);
        }
        parts.push(part);
        assert(views(parts@) =~= views(before).push(part@));
        if stop == text.len() {
            proof {
                assert(rest =~= part@);
                assert(views(parts@) =~= views(before) + seq![part@]);
            }
            return parts;
        }
        proof {
            assert(rest.skip(stop - from + 1) =~= text@.skip(stop + 1));
            assert(views(parts@) + fields(text@.skip(stop + 1), separator) =~= views(before) + (
            seq![part@] + fields(text@.skip(stop + 1), separator)));
        }
        from = stop + 1;
    }
}

} // verus!
