//! Characters of texts: their sizes in bytes and their Unicode classes.

use vstd::prelude::*;
use vstd::string::StringSliceAdditionalSpecFns;
use vstd::utf8;

verus! {

/// The bytes that a character takes.
pub open spec fn width(c: char) -> nat {
    if (c as u32) < 0x80 {
        1
    } else if (c as u32) < 0x800 {
        2
    } else if (c as u32) < 0x10000 {
        3
    } else {
        4
    }
}

/// The bytes that a text takes.
pub open spec fn size(s: Seq<char>) -> nat
    decreases s.len(),
{
    if s.len() == 0 {
        0
    } else {
        size(s.drop_last()) + width(s.last())
    }
}

pub proof fn lemma_size_push(s: Seq<char>, c: char)
    ensures
        size(s.push(c)) == size(s) + width(c),
{
    assert(s.push(c).drop_last() =~= s);
}

pub proof fn lemma_size_concat(a: Seq<char>, b: Seq<char>)
    ensures
        size(a + b) == size(a) + size(b),
    decreases b.len(),
{
    if b.len() > 0 {
        lemma_size_concat(a, b.drop_last());
        assert((a + b).drop_last() =~= a + b.drop_last());
    } else {
        assert(a + b =~= a);
    }
}

/// A longer beginning takes more bytes, and no more than the whole.
pub proof fn lemma_size_take(s: Seq<char>, i: int, j: int)
    requires
        0 <= i <= j <= s.len(),
    ensures
        size(s.take(i)) <= size(s.take(j)) <= size(s),
        size(s.take(j)) == size(s.take(i)) + size(s.subrange(i, j)),
        size(s.subrange(i, j)) >= j - i,
        i < j ==> size(s.take(i)) < size(s.take(j)),
    decreases j - i,
{
    assert(s.take(j) =~= s.take(i) + s.subrange(i, j));
    assert(s =~= s.take(j) + s.skip(j));
    lemma_size_concat(s.take(i), s.subrange(i, j));
    lemma_size_concat(s.take(j), s.skip(j));
    lemma_size_least(s.subrange(i, j));
}

/// Every character takes a byte at least.
pub proof fn lemma_size_least(s: Seq<char>)
    ensures
        size(s) >= s.len(),
    decreases s.len(),
{
    if s.len() > 0 {
        lemma_size_least(s.drop_last());
    }
}

/// Equal beginnings are as long as they are large.
pub proof fn lemma_size_position(s: Seq<char>, i: int, j: int)
    requires
        0 <= i <= s.len(),
        0 <= j <= s.len(),
    ensures
        size(s.take(i)) < size(s.take(j)) <==> i < j,
        size(s.take(i)) == size(s.take(j)) <==> i == j,
{
    if i < j {
        lemma_size_take(s, i, j);
    } else if j < i {
        lemma_size_take(s, j, i);
    }
}

proof fn lemma_size_front(s: Seq<char>)
    requires
        s.len() > 0,
    ensures
        size(s) == width(s[0]) + size(s.drop_first()),
{
    assert(s =~= seq![s[0]] + s.drop_first());
    lemma_size_concat(seq![s[0]], s.drop_first());
    assert(seq![s[0]] =~= Seq::<char>::empty().push(s[0]));
    lemma_size_push(Seq::<char>::empty(), s[0]);
}

/// The size of a text is the length of its encoding.
pub proof fn lemma_encoded_size(s: Seq<char>)
    ensures
        utf8::encode_utf8(s).len() == size(s),
    decreases s.len(),
{
    if s.len() > 0 {
        lemma_encoded_size(s.drop_first());
        lemma_size_front(s);
        utf8::char_is_scalar(s[0]);
        assert(utf8::encode_scalar(s[0] as u32).len() == width(s[0]));
    }
}

/// What splitting an encoded text yields.
pub proof fn lemma_split(s: Seq<char>, left: Seq<char>, right: Seq<char>, mid: int)
    requires
        utf8::is_char_boundary(utf8::encode_utf8(s), mid),
        0 <= mid <= utf8::encode_utf8(s).len(),
        utf8::encode_utf8(left) == utf8::encode_utf8(s).subrange(0, mid),
        utf8::encode_utf8(right) == utf8::encode_utf8(s).subrange(
            mid,
            utf8::encode_utf8(s).len() as int,
        ),
    ensures
        s == left + right,
        size(left) == mid,
        size(s) == size(left) + size(right),
{
    let bytes = utf8::encode_utf8(s);
    utf8::encode_utf8_valid_utf8(s);
    utf8::decode_utf8_split(bytes, mid);
    utf8::encode_utf8_decode_utf8(s);
    utf8::encode_utf8_decode_utf8(left);
    utf8::encode_utf8_decode_utf8(right);
    lemma_encoded_size(left);
    lemma_size_concat(left, right);
}

/// A position in a text, counted in bytes, where a character begins or the text
/// ends.
pub open spec fn boundary(s: Seq<char>, position: int) -> bool {
    utf8::is_char_boundary(utf8::encode_utf8(s), position)
}

/// The end of a beginning is a boundary.
pub proof fn lemma_boundary(s: Seq<char>, i: int)
    requires
        0 <= i <= s.len(),
    ensures
        boundary(s, size(s.take(i)) as int),
    decreases i,
{
    utf8::encode_utf8_valid_utf8(s);
    if i > 0 {
        let bytes = utf8::encode_utf8(s);
        utf8::encode_utf8_first_scalar(s);
        assert(utf8::pop_first_scalar(bytes) =~= utf8::encode_utf8(s.drop_first()));
        lemma_boundary(s.drop_first(), i - 1);
        assert(s.take(i).drop_first() =~= s.drop_first().take(i - 1));
        lemma_size_front(s.take(i));
        lemma_size_take(s, 0, i);
        lemma_encoded_size(s);
        lemma_size_take(s, i, i);
    } else {
        assert(s.take(0) =~= Seq::<char>::empty());
    }
}

/// A boundary is the end of a beginning.
pub proof fn lemma_boundary_index(s: Seq<char>, position: int) -> (i: int)
    requires
        boundary(s, position),
    ensures
        0 <= i <= s.len(),
        size(s.take(i)) == position,
    decreases s.len(),
{
    let bytes = utf8::encode_utf8(s);
    utf8::encode_utf8_valid_utf8(s);
    if position == 0 {
        assert(s.take(0) =~= Seq::<char>::empty());
        0
    } else if s.len() == 0 {
        0
    } else {
        utf8::encode_utf8_first_scalar(s);
        assert(utf8::pop_first_scalar(bytes) =~= utf8::encode_utf8(s.drop_first()));
        let rest = lemma_boundary_index(
            s.drop_first(),
            position - utf8::length_of_first_scalar(bytes),
        );
        assert(s.take(rest + 1).drop_first() =~= s.drop_first().take(rest));
        lemma_size_front(s.take(rest + 1));
        rest + 1
    }
}

/// The length of a text in bytes.
pub fn text_size(s: &str) -> (length: usize)
    ensures
        length == size(s@),
{
    proof {
        lemma_encoded_size(s@);
    }
    s.as_bytes().len()
}

pub fn width_of(c: char) -> (bytes: usize)
    ensures
        bytes == width(c),
{
    let code: u32 = c as u32;
    if code < 0x80 {
        1
    } else if code < 0x800 {
        2
    } else if code < 0x10000 {
        3
    } else {
        4
    }
}

/// The characters of a text.
pub fn chars_of(s: &str) -> (chars: Vec<char>)
    ensures
        chars@ == s@,
{
    let mut chars: Vec<char> = Vec::new();
    for c in it: s.chars()
        invariant
            chars@ == it.seq().take(it.index()),
            it.seq() == s@,
    {
        chars.push(c);
        assert(it.seq().take(it.index() + 1) =~= it.seq().take(it.index()).push(c));
    }
    assert(s@.take(s@.len() as int) =~= s@);
    chars
}

/// The text of characters.
pub fn text_of(chars: &Vec<char>) -> (text: String)
    ensures
        text@ == chars@,
{
    let mut text = String::new();
    let mut i: usize = 0;
    while i < chars.len()
        invariant
            i <= chars@.len(),
            text@ == chars@.take(i as int),
        decreases chars@.len() - i,
    {
        text.push(chars[i]);
        assert(chars@.take(i + 1) =~= chars@.take(i as int).push(chars@[i as int]));
        i = i + 1;
    }
    assert(chars@.take(chars@.len() as int) =~= chars@);
    text
}

/// Where a text is cut in two at a boundary.
pub fn cut_at(s: &str, position: usize) -> (parts: (&str, &str))
    requires
        boundary(s@, position as int),
        position <= size(s@),
    ensures
        s@ == parts.0@ + parts.1@,
        size(parts.0@) == position,
        size(s@) == size(parts.0@) + size(parts.1@),
{
    let parts = s.split_at(position);
    proof {
        lemma_encoded_size(s@);
        lemma_split(s@, parts.0@, parts.1@, position as int);
    }
    parts
}

pub open spec fn is_ascii(c: char) -> bool {
    (c as u32) < 0x80
}

/// Whether a character has the Unicode property `White_Space`.
pub open spec fn whitespace(c: char) -> bool {
    let code = c as u32;
    ||| 0x09 <= code <= 0x0d
    ||| code == 0x20
    ||| code == 0x85
    ||| code == 0xa0
    ||| code == 0x1680
    ||| 0x2000 <= code <= 0x200a
    ||| code == 0x2028
    ||| code == 0x2029
    ||| code == 0x202f
    ||| code == 0x205f
    ||| code == 0x3000
}

pub open spec fn ascii_letter(c: char) -> bool {
    ('a' <= c && c <= 'z') || ('A' <= c && c <= 'Z')
}

/// Whether a character beyond ASCII has the Unicode property `Alphabetic`.
pub uninterp spec fn wide_alphabetic(c: char) -> bool;

/// Whether a character beyond ASCII is alphabetic or of a numeric category.
pub uninterp spec fn wide_alphanumeric(c: char) -> bool;

/// Whether a character has the Unicode property `Alphabetic`.
pub open spec fn alphabetic(c: char) -> bool {
    if is_ascii(c) {
        ascii_letter(c)
    } else {
        wide_alphabetic(c)
    }
}

/// Whether a character is alphabetic or of a numeric category.
pub open spec fn alphanumeric(c: char) -> bool {
    if is_ascii(c) {
        ascii_letter(c) || is_digit(c)
    } else {
        wide_alphanumeric(c)
    }
}

/// `char::is_whitespace` tells the characters with the Unicode property
/// `White_Space`, which are listed above.
pub assume_specification[ char::is_whitespace ](c: char) -> (result: bool)
    ensures
        result == whitespace(c),
;

/// `char::is_alphabetic` looks the character up in the Unicode tables. Of ASCII it
/// tells the letters; beyond, its answer depends on the character alone.
pub assume_specification[ char::is_alphabetic ](c: char) -> (result: bool)
    ensures
        is_ascii(c) ==> result == ascii_letter(c),
        !is_ascii(c) ==> result == wide_alphabetic(c),
;

/// `char::is_alphanumeric` looks the character up in the Unicode tables. Of ASCII
/// it tells the letters and digits; beyond, its answer depends on the character
/// alone.
pub assume_specification[ char::is_alphanumeric ](c: char) -> (result: bool)
    ensures
        is_ascii(c) ==> result == (ascii_letter(c) || is_digit(c)),
        !is_ascii(c) ==> result == wide_alphanumeric(c),
;

/// The lower-case form of a character, which may be more than one.
pub uninterp spec fn lower_case(c: char) -> Seq<char>;

/// `char::to_lowercase` maps the character by the Unicode tables: what comes out
/// depends on the character alone. Which characters those are is left to that name.
#[verifier::external_body]
pub(crate) fn lowered(c: char) -> (lower: String)
    ensures
        lower@ == lower_case(c),
{
    c.to_lowercase().to_string()
}

pub open spec fn is_digit(c: char) -> bool {
    '0' <= c && c <= '9'
}

} // verus!
