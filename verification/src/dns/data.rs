//! What the data of records comes to, whatever way it is written.

use vstd::prelude::*;
use crate::chars;
use crate::dns::name;
use crate::dns::problem::Problem;
use crate::dns::rdata;
use crate::dns::rdata::{Field, Kind};
use crate::dns::reading;
use crate::dns::token::Piece;
use crate::ip;
use crate::ip_laws;
use crate::number;
use crate::text;

verus! {

/// A token is a number in digits, not above a limit.
pub open spec fn counts(path: Seq<char>, piece: Piece, limit: nat, value: nat) -> bool {
    &&& name::text_of(path, piece) is Ok
    &&& name::text_of(path, piece)->Ok_0.len() > 0
    &&& number::all_digits(name::text_of(path, piece)->Ok_0)
    &&& number::numeral(name::text_of(path, piece)->Ok_0) == value
    &&& value <= limit
}

/// A token names a host.
pub open spec fn is_host(
    path: Seq<char>,
    piece: Piece,
    origin: Seq<char>,
    host: Seq<char>,
) -> bool {
    name::name_of(path, piece, origin) == Ok::<Seq<char>, Problem>(host)
}

proof fn lemma_counts(path: Seq<char>, piece: Piece, limit: nat, value: nat, detail: Seq<char>)
    requires
        counts(path, piece, limit, value),
    ensures
        rdata::number_of(path, piece, limit, detail) == Ok::<nat, Problem>(value),
{
    let shown = name::text_of(path, piece)->Ok_0;
    assert(chars::is_digit(shown[0]));
}

proof fn lemma_short(path: Seq<char>, piece: Piece, origin: Seq<char>, value: nat)
    requires
        counts(path, piece, u16::MAX as nat, value),
    ensures
        rdata::field_text(path, piece, origin, Field::Short) == Ok::<Seq<char>, Problem>(
            text::decimal(value),
        ),
{
    lemma_counts(path, piece, u16::MAX as nat, value, "integer exceeds u16"@);
}

/// One field more stands behind those before it.
proof fn lemma_next_field(
    path: Seq<char>,
    tokens: Seq<Piece>,
    origin: Seq<char>,
    layout: Seq<Field>,
    n: nat,
    front: Seq<char>,
    last: Seq<char>,
)
    requires
        rdata::fields_text(path, tokens, origin, layout, n) == Ok::<Seq<char>, Problem>(front),
        rdata::field_text(path, tokens[n as int], origin, layout[n as int]) == Ok::<
            Seq<char>,
            Problem,
        >(last),
    ensures
        rdata::fields_text(path, tokens, origin, layout, n + 1) == Ok::<Seq<char>, Problem>(
            if n == 0 {
                last
            } else {
                front + " "@ + last
            },
        ),
{
}

/// Name servers and aliases are hosts.
pub proof fn hosts_are_named(
    kind: Kind,
    path: Seq<char>,
    tokens: Seq<Piece>,
    origin: Seq<char>,
    host: Seq<char>,
)
    requires
        kind is Ns || kind is Cname,
        tokens.len() == 1,
        is_host(path, tokens[0], origin, host),
    ensures
        rdata::rdata_of(kind, path, tokens, origin) == Ok::<Seq<char>, Problem>(host),
{
    reveal_with_fuel(rdata::fields_text, 2);
}

/// A mail exchange is a preference and a host.
pub proof fn mail_exchanges_have_a_preference_and_a_host(
    path: Seq<char>,
    tokens: Seq<Piece>,
    origin: Seq<char>,
    preference: nat,
    host: Seq<char>,
)
    requires
        tokens.len() == 2,
        counts(path, tokens[0], u16::MAX as nat, preference),
        is_host(path, tokens[1], origin, host),
    ensures
        rdata::rdata_of(Kind::Mx, path, tokens, origin) == Ok::<Seq<char>, Problem>(
            text::decimal(preference) + " "@ + host,
        ),
{
    lemma_counts(path, tokens[0], u16::MAX as nat, preference, "integer exceeds u16"@);
    reveal_with_fuel(rdata::fields_text, 3);
}

/// A service is a priority, a weight, a port and a host.
pub proof fn services_have_a_port_and_a_host(
    path: Seq<char>,
    tokens: Seq<Piece>,
    origin: Seq<char>,
    priority: nat,
    weight: nat,
    port: nat,
    host: Seq<char>,
)
    requires
        tokens.len() == 4,
        counts(path, tokens[0], u16::MAX as nat, priority),
        counts(path, tokens[1], u16::MAX as nat, weight),
        counts(path, tokens[2], u16::MAX as nat, port),
        is_host(path, tokens[3], origin, host),
    ensures
        rdata::rdata_of(Kind::Srv, path, tokens, origin) == Ok::<Seq<char>, Problem>(
            text::decimal(priority) + " "@ + text::decimal(weight) + " "@ + text::decimal(port)
                + " "@ + host,
        ),
{
    let layout = rdata::layout_of(Kind::Srv);
    lemma_short(path, tokens[0], origin, priority);
    lemma_short(path, tokens[1], origin, weight);
    lemma_short(path, tokens[2], origin, port);
    let a = text::decimal(priority);
    let b = a + " "@ + text::decimal(weight);
    let c = b + " "@ + text::decimal(port);
    lemma_next_field(path, tokens, origin, layout, 0, Seq::empty(), a);
    lemma_next_field(path, tokens, origin, layout, 1, a, text::decimal(weight));
    lemma_next_field(path, tokens, origin, layout, 2, b, text::decimal(port));
    lemma_next_field(path, tokens, origin, layout, 3, c, host);
}

/// The start of authority is two names, a serial number and four times.
pub proof fn authorities_have_a_serial_number_and_times(
    path: Seq<char>,
    tokens: Seq<Piece>,
    origin: Seq<char>,
    server: Seq<char>,
    mailbox: Seq<char>,
    serial: nat,
    times: Seq<u32>,
)
    requires
        tokens.len() == 7,
        times.len() == 4,
        is_host(path, tokens[0], origin, server),
        is_host(path, tokens[1], origin, mailbox),
        counts(path, tokens[2], u32::MAX as nat, serial),
        reading::names_ttl(path, tokens[3], times[0]),
        reading::names_ttl(path, tokens[4], times[1]),
        reading::names_ttl(path, tokens[5], times[2]),
        reading::names_ttl(path, tokens[6], times[3]),
    ensures
        rdata::rdata_of(Kind::Soa, path, tokens, origin) == Ok::<Seq<char>, Problem>(
            server + " "@ + mailbox + " "@ + text::decimal(serial) + " "@ + text::decimal(
                times[0] as nat,
            ) + " "@ + text::decimal(times[1] as nat) + " "@ + text::decimal(times[2] as nat)
                + " "@ + text::decimal(times[3] as nat),
        ),
{
    let layout = rdata::layout_of(Kind::Soa);
    lemma_counts(path, tokens[2], u32::MAX as nat, serial, "integer exceeds u32"@);
    let b = server + " "@ + mailbox;
    let c = b + " "@ + text::decimal(serial);
    let d = c + " "@ + text::decimal(times[0] as nat);
    let e = d + " "@ + text::decimal(times[1] as nat);
    let f = e + " "@ + text::decimal(times[2] as nat);
    lemma_next_field(path, tokens, origin, layout, 0, Seq::empty(), server);
    lemma_next_field(path, tokens, origin, layout, 1, server, mailbox);
    lemma_next_field(path, tokens, origin, layout, 2, b, text::decimal(serial));
    lemma_next_field(path, tokens, origin, layout, 3, c, text::decimal(times[0] as nat));
    lemma_next_field(path, tokens, origin, layout, 4, d, text::decimal(times[1] as nat));
    lemma_next_field(path, tokens, origin, layout, 5, e, text::decimal(times[2] as nat));
    lemma_next_field(path, tokens, origin, layout, 6, f, text::decimal(times[3] as nat));
}

/// An address is kept as it is shown.
pub proof fn addresses_are_kept_as_shown(
    path: Seq<char>,
    tokens: Seq<Piece>,
    origin: Seq<char>,
    address: nat,
)
    requires
        tokens.len() == 1,
        address <= u32::MAX,
        name::text_of(path, tokens[0]) == Ok::<Seq<char>, Problem>(ip::v4_text(address)),
    ensures
        rdata::rdata_of(Kind::A, path, tokens, origin) == Ok::<Seq<char>, Problem>(
            ip::v4_text(address),
        ),
{
    ip_laws::shown_v4_is_read_back(address);
}

/// An address of eight groups is kept as it is shown.
pub proof fn long_addresses_are_kept_as_shown(
    path: Seq<char>,
    tokens: Seq<Piece>,
    origin: Seq<char>,
    groups: Seq<nat>,
)
    requires
        tokens.len() == 1,
        groups.len() == 8,
        ip_laws::are_groups(groups),
        name::text_of(path, tokens[0]) == Ok::<Seq<char>, Problem>(ip::v6_text(groups)),
    ensures
        rdata::rdata_of(Kind::Aaaa, path, tokens, origin) == Ok::<Seq<char>, Problem>(
            ip::v6_text(groups),
        ),
        rdata::rdata_of(Kind::A, path, tokens, origin) is Err,
{
    ip_laws::shown_v6_is_read_back(groups);
}

/// The bytes of ASCII text.
pub open spec fn bytes_of(shown: Seq<char>) -> Seq<u8> {
    shown.map_values(|c: char| c as u8)
}

proof fn lemma_octet_bytes(byte: u8)
    ensures
        ({
            let shown = bytes_of(name::octet(byte));
            if 0x21 <= byte <= 0x7e && byte != 0x5c && byte != 0x7c && byte != 0x22 {
                shown == seq![byte]
            } else {
                &&& shown.len() == 4
                &&& shown[0] == 0x5c
                &&& shown[1] == 0x30 + byte / 100
                &&& shown[2] == 0x30 + byte / 10 % 10
                &&& shown[3] == 0x30 + byte % 10
            }
        }),
{
    let shown = bytes_of(name::octet(byte));
    if 0x21 <= byte <= 0x7e && byte != 0x5c && byte != 0x7c && byte != 0x22 {
        assert(shown =~= seq![byte]);
    } else {
        let value = byte as nat;
        reveal_with_fuel(text::digits, 4);
        reveal_with_fuel(text::decimal, 4);
        let written = text::padded(value, 3);
        assert(written.len() == 3 && written[0] == text::digit(value / 100) && written[1]
            == text::digit(value / 10 % 10) && written[2] == text::digit(value % 10));
        assert(shown[0] == '\\' as u8);
        assert(shown[1] == text::digit(value / 100) as u8);
        assert(shown[2] == text::digit(value / 10 % 10) as u8);
        assert(shown[3] == text::digit(value % 10) as u8);
    }
}

proof fn lemma_rendered_from(bytes: Seq<u8>, k: int)
    requires
        0 <= k < bytes.len(),
    ensures
        ({
            let whole = bytes_of(name::rendered_octets(bytes));
            let at = name::rendered_octets(bytes.take(k)).len();
            let shown = bytes_of(name::octet(bytes[k]));
            &&& at + shown.len() == name::rendered_octets(bytes.take(k + 1)).len()
            &&& at + shown.len() <= whole.len()
            &&& forall|i: int| 0 <= i < shown.len() ==> whole[at + i] == #[trigger] shown[i]
        }),
    decreases bytes.len(),
{
    let front = bytes.drop_last();
    let whole = bytes_of(name::rendered_octets(bytes));
    if k < front.len() {
        lemma_rendered_from(front, k);
        assert(front.take(k) =~= bytes.take(k));
        assert(front.take(k + 1) =~= bytes.take(k + 1));
    } else {
        assert(bytes.take(k) =~= front);
        assert(bytes.take(k + 1) =~= bytes);
    }
}

proof fn lemma_octets_read(path: Seq<char>, piece: Piece, bytes: Seq<u8>, k: int)
    requires
        piece.raw == bytes_of(name::rendered_octets(bytes)),
        0 <= k <= bytes.len(),
    ensures
        name::octets_from(
            path,
            piece,
            name::rendered_octets(bytes.take(k)).len() as int,
            bytes.take(k),
        ) == Ok::<Seq<u8>, Problem>(bytes),
    decreases bytes.len() - k,
{
    let at = name::rendered_octets(bytes.take(k)).len() as int;
    if k < bytes.len() {
        let byte = bytes[k];
        let shown = bytes_of(name::octet(byte));
        lemma_rendered_from(bytes, k);
        lemma_octet_bytes(byte);
        assert(bytes.take(k).push(byte) =~= bytes.take(k + 1));
        lemma_octets_read(path, piece, bytes, k + 1);
        assert(piece.raw[at + 0] == shown[0]);
        if shown.len() == 4 {
            assert(piece.raw[at + 1] == shown[1]);
            assert(piece.raw[at + 2] == shown[2]);
            assert(piece.raw[at + 3] == shown[3]);
            assert(byte / 100 <= 2);
            assert((byte / 100) * 100 + (byte / 10 % 10) * 10 + byte % 10 == byte);
            assert(name::escaped(piece.raw, at) == Ok::<u8, Seq<char>>(byte));
        }
    } else {
        assert(bytes.take(k) =~= bytes);
    }
}

/// Octets that are shown are read as those octets: what is escaped is told apart from
/// everything else.
pub proof fn shown_octets_are_read_back(path: Seq<char>, piece: Piece, bytes: Seq<u8>)
    requires
        piece.raw == bytes_of(name::rendered_octets(bytes)),
    ensures
        name::octets_of(path, piece) == Ok::<Seq<u8>, Problem>(bytes),
{
    assert(bytes.take(0) =~= Seq::<u8>::empty());
    lemma_octets_read(path, piece, bytes, 0);
}

} // verus!
