//! How the text of a zone file falls into words, comments and records.

use vstd::prelude::*;
use crate::dns::token;
use crate::dns::token::{Piece, Row, Scan};

verus! {

/// Reading stands neither in quotes nor in a comment.
pub open spec fn outside(scan: Scan) -> bool {
    !scan.in_quote && !scan.in_comment
}

/// A byte that stands for itself in a word.
pub open spec fn ordinary(byte: u8) -> bool {
    &&& byte <= 0x7f
    &&& byte != 0x3b && byte != 0x22 && byte != 0x5c
    &&& byte != 0x28 && byte != 0x29
    &&& byte != 0x0a && byte != 0x20 && byte != 0x09 && byte != 0x0d
}

/// The words of a record, with the one that is being read.
pub open spec fn words(scan: Scan) -> Seq<Piece> {
    if scan.token.len() > 0 || scan.token_quoted {
        scan.tokens.push(
            Piece { raw: scan.token, quoted: scan.token_quoted, offset: scan.token_start },
        )
    } else {
        scan.tokens
    }
}

proof fn lemma_in_comment(path: Seq<char>, bytes: Seq<u8>, i: int, j: int, scan: Scan)
    requires
        0 <= i <= j <= bytes.len(),
        scan.in_comment,
        forall|k: int| i <= k < j ==> #[trigger] bytes[k] != 0x0a,
    ensures
        token::scanned(path, bytes, i, scan) == token::scanned(path, bytes, j, scan),
    decreases j - i,
{
    if i < j {
        assert(bytes[i] != 0x0a);
        lemma_in_comment(path, bytes, i + 1, j, scan);
    }
}

/// A comment takes everything up to the end of its line, and reading goes on there as if
/// only the word before it had ended.
pub proof fn comments_reach_to_the_line_end(
    path: Seq<char>,
    bytes: Seq<u8>,
    i: int,
    j: int,
    scan: Scan,
)
    requires
        0 <= i < j <= bytes.len(),
        outside(scan),
        bytes[i] == 0x3b,
        forall|k: int| i < k < j ==> #[trigger] bytes[k] != 0x0a,
        j < bytes.len() ==> bytes[j] == 0x0a,
    ensures
        token::scanned(path, bytes, i, scan) == token::scanned(
            path,
            bytes,
            j,
            Scan { tokens: words(scan), token: Seq::empty(), token_quoted: false, ..scan },
        ),
{
    let done = token::token_finished(scan);
    assert(done =~= (Scan { tokens: words(scan), token: Seq::empty(), token_quoted: false, ..scan }));
    let inside = Scan { in_comment: true, ..done };
    lemma_in_comment(path, bytes, i + 1, j, inside);
    assert(token::token_finished(done) =~= done);
    if j < bytes.len() {
        assert((Scan { in_comment: false, ..inside }) =~= done);
    } else {
        assert(token::token_finished(inside) =~= inside);
    }
}

proof fn lemma_in_word(path: Seq<char>, bytes: Seq<u8>, i: int, j: int, scan: Scan)
    requires
        0 <= i <= j <= bytes.len(),
        outside(scan),
        scan.token.len() > 0,
        forall|k: int| i <= k < j ==> ordinary(#[trigger] bytes[k]),
    ensures
        token::scanned(path, bytes, i, scan) == token::scanned(
            path,
            bytes,
            j,
            Scan { token: scan.token + bytes.subrange(i, j), ..scan },
        ),
    decreases j - i,
{
    if i < j {
        assert(ordinary(bytes[i]));
        let next = Scan { token: scan.token.push(bytes[i]), ..scan };
        lemma_in_word(path, bytes, i + 1, j, next);
        assert(next.token + bytes.subrange(i + 1, j) =~= scan.token + bytes.subrange(i, j));
    } else {
        assert(scan.token + bytes.subrange(i, j) =~= scan.token);
    }
}

/// Ordinary bytes make up a word, which begins with the first of them.
pub proof fn words_are_taken_whole(path: Seq<char>, bytes: Seq<u8>, i: int, j: int, scan: Scan)
    requires
        bytes.len() <= usize::MAX,
        0 <= i < j <= bytes.len(),
        outside(scan),
        scan.token.len() == 0,
        forall|k: int| i <= k < j ==> ordinary(#[trigger] bytes[k]),
    ensures
        token::scanned(path, bytes, i, scan) == token::scanned(
            path,
            bytes,
            j,
            (Scan {
                token: bytes.subrange(i, j),
                token_start: i as usize,
                token_quoted: false,
                record_offset: if scan.tokens.len() == 0 {
                    i as usize
                } else {
                    scan.record_offset
                },
                ..scan
            }),
        ),
{
    assert(ordinary(bytes[i]));
    let begun = token::token_begun(scan, i as usize, false);
    let next = Scan { token: begun.token.push(bytes[i]), ..begun };
    lemma_in_word(path, bytes, i + 1, j, next);
    assert(next.token + bytes.subrange(i + 1, j) =~= bytes.subrange(i, j));
}

proof fn lemma_in_quotes(path: Seq<char>, bytes: Seq<u8>, i: int, j: int, scan: Scan)
    requires
        0 <= i <= j < bytes.len(),
        scan.in_quote,
        !scan.in_comment,
        forall|k: int|
            i <= k < j ==> (#[trigger] bytes[k]) <= 0x7f && bytes[k] != 0x22 && bytes[k] != 0x5c
                && bytes[k] != 0x0a,
        bytes[j] == 0x22,
    ensures
        token::scanned(path, bytes, i, scan) == token::scanned(
            path,
            bytes,
            j + 1,
            Scan { token: scan.token + bytes.subrange(i, j), in_quote: false, ..scan },
        ),
    decreases j - i,
{
    if i < j {
        assert(bytes[i] <= 0x7f && bytes[i] != 0x22);
        let next = Scan { token: scan.token.push(bytes[i]), ..scan };
        lemma_in_quotes(path, bytes, i + 1, j, next);
        assert(next.token + bytes.subrange(i + 1, j) =~= scan.token + bytes.subrange(i, j));
    } else {
        assert(scan.token + bytes.subrange(i, j) =~= scan.token);
    }
}

/// What stands between quotes belongs to one word, whatever it is.
pub proof fn quotes_keep_what_they_enclose(
    path: Seq<char>,
    bytes: Seq<u8>,
    i: int,
    j: int,
    scan: Scan,
)
    requires
        bytes.len() <= usize::MAX,
        0 <= i < j < bytes.len(),
        outside(scan),
        scan.token.len() == 0,
        bytes[i] == 0x22,
        forall|k: int|
            i < k < j ==> (#[trigger] bytes[k]) <= 0x7f && bytes[k] != 0x22 && bytes[k] != 0x5c
                && bytes[k] != 0x0a,
        bytes[j] == 0x22,
    ensures
        token::scanned(path, bytes, i, scan) == token::scanned(
            path,
            bytes,
            j + 1,
            (Scan {
                token: bytes.subrange(i + 1, j),
                token_start: i as usize,
                token_quoted: true,
                record_offset: if scan.tokens.len() == 0 {
                    i as usize
                } else {
                    scan.record_offset
                },
                ..scan
            }),
        ),
{
    let begun = token::token_begun(scan, i as usize, true);
    let inside = Scan { in_quote: true, ..begun };
    lemma_in_quotes(path, bytes, i + 1, j, inside);
    assert(inside.token + bytes.subrange(i + 1, j) =~= bytes.subrange(i + 1, j));
}

/// The end of a line ends a word. Within parentheses the record goes on; outside them it
/// ends, with the words that it has, and where it has none there is no record.
pub proof fn lines_end_records_outside_parentheses(
    path: Seq<char>,
    bytes: Seq<u8>,
    i: int,
    scan: Scan,
)
    requires
        0 <= i < bytes.len(),
        outside(scan),
        bytes[i] == 0x0a,
    ensures
        token::scanned(path, bytes, i, scan) == token::scanned(
            path,
            bytes,
            i + 1,
            if scan.parentheses > 0 {
                Scan { tokens: words(scan), token: Seq::empty(), token_quoted: false, ..scan }
            } else if words(scan).len() > 0 {
                (Scan {
                    records: scan.records.push(
                        Row {
                            tokens: words(scan),
                            leading_whitespace: scan.leading_whitespace,
                            offset: scan.record_offset,
                        },
                    ),
                    tokens: Seq::empty(),
                    token: Seq::empty(),
                    token_quoted: false,
                    leading_whitespace: false,
                    ..scan
                })
            } else {
                Scan { token_quoted: false, leading_whitespace: false, ..scan }
            },
        ),
{
    let done = token::token_finished(scan);
    assert(done =~= (Scan { tokens: words(scan), token: Seq::empty(), token_quoted: false, ..scan }));
    assert(token::token_finished(done) =~= done);
    let after = token::line_finished(done);
    if scan.parentheses == 0 && words(scan).len() == 0 {
        assert(scan.tokens =~= Seq::empty());
        assert(scan.token =~= Seq::empty());
        assert(after =~= (Scan { token_quoted: false, leading_whitespace: false, ..scan }));
    }
}

/// A blank ends a word, and before the first word of a record it stands for the owner
/// that is left out.
pub proof fn blanks_end_words(path: Seq<char>, bytes: Seq<u8>, i: int, scan: Scan)
    requires
        0 <= i < bytes.len(),
        outside(scan),
        bytes[i] == 0x20 || bytes[i] == 0x09 || bytes[i] == 0x0d,
    ensures
        token::scanned(path, bytes, i, scan) == token::scanned(
            path,
            bytes,
            i + 1,
            (Scan {
                tokens: words(scan),
                token: Seq::empty(),
                token_quoted: false,
                leading_whitespace: scan.leading_whitespace || (scan.tokens.len() == 0
                    && scan.token.len() == 0 && scan.parentheses == 0),
                ..scan
            }),
        ),
{
    let done = token::token_finished(scan);
    assert(done =~= (Scan { tokens: words(scan), token: Seq::empty(), token_quoted: false, ..scan }));
}

/// A file ends its last record, unless quotes or parentheses are still open.
pub proof fn files_end_their_last_record(path: Seq<char>, bytes: Seq<u8>, scan: Scan)
    ensures
        token::scanned(path, bytes, bytes.len() as int, scan) is Ok <==> !scan.in_quote
            && scan.parentheses == 0,
        !scan.in_quote && scan.parentheses == 0 ==> token::scanned(
            path,
            bytes,
            bytes.len() as int,
            scan,
        )->Ok_0 == if words(scan).len() > 0 {
            scan.records.push(
                Row {
                    tokens: words(scan),
                    leading_whitespace: scan.leading_whitespace,
                    offset: scan.record_offset,
                },
            )
        } else {
            scan.records
        },
{
}

} // verus!
