//! Digests of canonical results.

use vstd::prelude::*;
use crate::text;

verus! {

pub const OFFSET_BASIS: u64 = 0xcbf2_9ce4_8422_2325;

pub const PRIME: u64 = 0x0000_0100_0000_01b3;

/// The FNV-1a hash of bytes, from a given start.
pub open spec fn fnv(start: u64, bytes: Seq<u8>) -> u64
    decreases bytes.len(),
{
    if bytes.len() == 0 {
        start
    } else {
        (fnv(start, bytes.drop_last()) ^ (bytes.last() as u64)).wrapping_mul(PRIME)
    }
}

/// Extends a digest by the bytes of a text.
pub fn mix_digest(accumulator: u64, value: &str) -> (digest: u64)
    ensures
        digest == fnv(accumulator, vstd::utf8::encode_utf8(value@)),
{
    extend(accumulator, value.as_bytes())
}

fn extend(start: u64, bytes: &[u8]) -> (digest: u64)
    ensures
        digest == fnv(start, bytes@),
{
    let mut digest: u64 = start;
    let mut i: usize = 0;
    assert(bytes@.take(0) =~= Seq::<u8>::empty());
    while i < bytes.len()
        invariant
            i <= bytes@.len(),
            digest == fnv(start, bytes@.take(i as int)),
        decreases bytes@.len() - i,
    {
        assert(bytes@.take(i + 1).drop_last() =~= bytes@.take(i as int));
        digest = (digest ^ (bytes[i] as u64)).wrapping_mul(PRIME);
        i = i + 1;
    }
    assert(bytes@.take(bytes@.len() as int) =~= bytes@);
    digest
}

pub fn fingerprint(bytes: &[u8]) -> (digest: u64)
    ensures
        digest == fnv(OFFSET_BASIS, bytes@),
{
    extend(OFFSET_BASIS, bytes)
}

/// A hexadecimal digit in lower case.
pub open spec fn hex_digit(value: nat) -> char {
    if value < 10 {
        text::digit(value)
    } else if value == 10 {
        'a'
    } else if value == 11 {
        'b'
    } else if value == 12 {
        'c'
    } else if value == 13 {
        'd'
    } else if value == 14 {
        'e'
    } else {
        'f'
    }
}

/// The last `width` hexadecimal digits of a number.
pub open spec fn hex(value: nat, width: nat) -> Seq<char>
    decreases width,
{
    if width == 0 {
        Seq::empty()
    } else {
        hex(value / 16, (width - 1) as nat).push(hex_digit(value % 16))
    }
}

fn hex_char(value: u64) -> (digit: char)
    requires
        value < 16,
    ensures
        digit == hex_digit(value as nat),
{
    match value {
        0 => '0',
        1 => '1',
        2 => '2',
        3 => '3',
        4 => '4',
        5 => '5',
        6 => '6',
        7 => '7',
        8 => '8',
        9 => '9',
        10 => 'a',
        11 => 'b',
        12 => 'c',
        13 => 'd',
        14 => 'e',
        _ => 'f',
    }
}

fn push_hex(out: &mut String, value: u64, width: u32)
    ensures
        final(out)@ == old(out)@ + hex(value as nat, width as nat),
    decreases width,
{
    if width > 0 {
        let ghost start = out@;
        push_hex(out, value / 16, width - 1);
        out.push(hex_char(value % 16));
        assert(out@ =~= start + hex(value as nat, width as nat));
    } else {
        assert(out@ + Seq::<char>::empty() =~= out@);
    }
}

/// A digest as sixteen hexadecimal digits.
pub fn digest_text(digest: u64) -> (text: String)
    ensures
        text@ == hex(digest as nat, 16),
{
    let mut text = String::new();
    push_hex(&mut text, digest, 16);
    assert(Seq::<char>::empty() + hex(digest as nat, 16) =~= hex(digest as nat, 16));
    text
}

/// The digest of canonically serialized bytes.
pub fn result_digest(canonical: &[u8]) -> (text: String)
    ensures
        text@ == hex(fnv(OFFSET_BASIS, canonical@) as nat, 16),
{
    digest_text(fingerprint(canonical))
}

} // verus!
