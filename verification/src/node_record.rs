//! Node records and their `enode://` form.
//!
//! A node record names a peer and says where to reach it.  Its text form is
//! `enode://`, the 128 hexadecimal digits of the peer's identifier, `@`, and
//! an IPv4 socket address: four decimal numbers up to 255 separated by
//! dots, a colon, and a decimal port up to 65535.  Decimal numbers are
//! written without leading zeros.

use vstd::prelude::*;
use vstd::slice::slice_subrange;
use vstd::string::StringSliceAdditionalSpecFns;
use crate::peer_id::PeerId;
use crate::primitives::H512;
use crate::util::{from_hex, hex_ascii, hex_decoded, hex_round_trip, hex_value, is_hex, to_hex};

verus! {

/// An IPv4 address and a port.
#[derive(Clone, Copy, Debug, PartialEq, Eq, Hash)]
pub struct SocketAddr {
    pub ip: [u8; 4],
    pub port: u16,
}

/// The mathematical content of a [`SocketAddr`].
pub struct SocketAddrView {
    pub ip: Seq<u8>,
    pub port: u16,
}

impl View for SocketAddr {
    type V = SocketAddrView;

    open spec fn view(&self) -> SocketAddrView {
        SocketAddrView { ip: self.ip@, port: self.port }
    }
}

/// A peer and where to reach it.
#[derive(Clone, Copy, Debug, PartialEq, Eq, Hash)]
pub struct NodeRecord {
    pub addr: SocketAddr,
    pub id: PeerId,
}

/// The mathematical content of a [`NodeRecord`].
pub struct NodeRecordView {
    pub addr: SocketAddrView,
    pub id: Seq<u8>,
}

impl View for NodeRecord {
    type V = NodeRecordView;

    open spec fn view(&self) -> NodeRecordView {
        NodeRecordView { addr: self.addr@, id: self.id@ }
    }
}

impl NodeRecordView {
    /// The address has four bytes and the identifier sixty-four.
    pub open spec fn wf(self) -> bool {
        self.addr.ip.len() == 4 && self.id.len() == 64
    }
}

/// Why a text is not a node record.
#[derive(Clone, Copy, Debug, PartialEq, Eq, Structural)]
pub enum ParseError {
    /// The text does not start with `enode://`.
    NotEnode,
    /// There is no `@` after the identifier.
    MissingAddress,
    /// The identifier is not an even number of hexadecimal digits.
    MalformedHex,
    /// The identifier does not have 128 digits.
    WrongKeyLength,
    /// What follows the `@` is not a socket address.
    MalformedAddress,
}

/// A decimal digit, in ASCII.
pub open spec fn is_digit(c: u8) -> bool {
    0x30 <= c <= 0x39
}

/// Decimal digits only.
pub open spec fn is_digits(s: Seq<u8>) -> bool {
    forall|i: int| 0 <= i < s.len() ==> is_digit(#[trigger] s[i])
}

/// The number that decimal digits denote.
pub open spec fn dec_value(s: Seq<u8>) -> nat
    decreases s.len(),
{
    if s.len() == 0 {
        0
    } else {
        dec_value(s.drop_last()) * 10 + (s.last() - 0x30) as nat
    }
}

/// The decimal digits of a number, without leading zeros.
pub open spec fn dec_digits(v: nat) -> Seq<u8>
    decreases v,
{
    if v < 10 {
        seq![(0x30 + v) as u8]
    } else {
        dec_digits(v / 10).push((0x30 + v % 10) as u8)
    }
}

/// At least one decimal digit, and no leading zero before another digit.
pub open spec fn is_canonical(s: Seq<u8>) -> bool {
    s.len() >= 1 && is_digits(s) && (s.len() > 1 ==> s[0] != 0x30)
}

/// The number up to `max` that `s` is the decimal form of.
pub open spec fn decimal(s: Seq<u8>, max: nat) -> Option<nat> {
    if is_canonical(s) && dec_value(s) <= max {
        Some(dec_value(s))
    } else {
        None
    }
}

/// Where `sep` first occurs in `s`.
pub open spec fn first_index(s: Seq<u8>, sep: u8) -> Option<int>
    decreases s.len(),
{
    if s.len() == 0 {
        None
    } else if s[0] == sep {
        Some(0)
    } else {
        match first_index(s.drop_first(), sep) {
            Some(i) => Some(i + 1),
            None => None,
        }
    }
}

/// What stands before and after the first `sep` in `s`.
pub open spec fn split_at_first(s: Seq<u8>, sep: u8) -> Option<(Seq<u8>, Seq<u8>)> {
    match first_index(s, sep) {
        Some(i) => Some((s.subrange(0, i), s.subrange(i + 1, s.len() as int))),
        None => None,
    }
}

/// The ASCII code of `.`.
pub const DOT: u8 = 0x2e;

/// The ASCII code of `:`.
pub const COLON: u8 = 0x3a;

/// The ASCII code of `@`.
pub const AT: u8 = 0x40;

/// The IPv4 address that `s` is the text of: four decimal numbers up to
/// 255, separated by dots.
pub open spec fn parse_ip(s: Seq<u8>) -> Option<Seq<u8>> {
    match split_at_first(s, DOT) {
        None => None,
        Some((o1, r1)) => match split_at_first(r1, DOT) {
            None => None,
            Some((o2, r2)) => match split_at_first(r2, DOT) {
                None => None,
                Some((o3, o4)) => if decimal(o1, 255) is Some && decimal(o2, 255) is Some
                    && decimal(o3, 255) is Some && decimal(o4, 255) is Some {
                    Some(
                        seq![
                            decimal(o1, 255).unwrap() as u8,
                            decimal(o2, 255).unwrap() as u8,
                            decimal(o3, 255).unwrap() as u8,
                            decimal(o4, 255).unwrap() as u8,
                        ],
                    )
                } else {
                    None
                },
            },
        },
    }
}

/// The text of an IPv4 address.
pub open spec fn ip_text(ip: Seq<u8>) -> Seq<u8> {
    dec_digits(ip[0] as nat) + seq![DOT] + (dec_digits(ip[1] as nat) + seq![DOT] + (dec_digits(
        ip[2] as nat,
    ) + seq![DOT] + dec_digits(ip[3] as nat)))
}

/// The socket address that `s` is the text of: an IPv4 address, a colon,
/// and a decimal port up to 65535.
pub open spec fn parse_addr(s: Seq<u8>) -> Option<SocketAddrView> {
    match split_at_first(s, COLON) {
        None => None,
        Some((h, p)) => if parse_ip(h) is Some && decimal(p, 65535) is Some {
            Some(
                SocketAddrView {
                    ip: parse_ip(h).unwrap(),
                    port: decimal(p, 65535).unwrap() as u16,
                },
            )
        } else {
            None
        },
    }
}

/// The text of a socket address.
pub open spec fn addr_text(a: SocketAddrView) -> Seq<u8> {
    ip_text(a.ip) + seq![COLON] + dec_digits(a.port as nat)
}

/// The bytes of `enode://`.
pub open spec fn enode_prefix() -> Seq<u8> {
    seq![0x65u8, 0x6eu8, 0x6fu8, 0x64u8, 0x65u8, 0x3au8, 0x2fu8, 0x2fu8]
}

/// The node record that `s` is the text of, or why it is the text of none.
pub open spec fn parse_enode(s: Seq<u8>) -> Result<NodeRecordView, ParseError> {
    if !(s.len() >= 8 && s.subrange(0, 8) == enode_prefix()) {
        Err(ParseError::NotEnode)
    } else {
        match split_at_first(s.subrange(8, s.len() as int), AT) {
            None => Err(ParseError::MissingAddress),
            Some((h, a)) => if !is_hex(h) {
                Err(ParseError::MalformedHex)
            } else if h.len() != 128 {
                Err(ParseError::WrongKeyLength)
            } else {
                match parse_addr(a) {
                    None => Err(ParseError::MalformedAddress),
                    Some(addr) => Ok(NodeRecordView { addr, id: hex_decoded(h) }),
                }
            },
        }
    }
}

/// The text of a node record, with the identifier in lower case.
pub open spec fn enode_text(r: NodeRecordView) -> Seq<u8> {
    enode_prefix() + (hex_ascii(r.id) + seq![AT] + addr_text(r.addr))
}

/// The texts of a node record: `enode://`, 128 hexadecimal digits of either
/// case that spell the identifier, `@`, and the text of the address.
pub open spec fn is_enode_of(s: Seq<u8>, r: NodeRecordView) -> bool {
    exists|h: Seq<u8>| #[trigger]
        is_hex(h) && h.len() == 128 && hex_decoded(h) == r.id && s == enode_prefix() + (h + seq![
            AT,
        ] + addr_text(r.addr))
}

/// The digits of a number are canonical and denote the number.
pub proof fn lemma_dec_digits(v: nat)
    ensures
        is_canonical(dec_digits(v)),
        dec_value(dec_digits(v)) == v,
    decreases v,
{
    let s = dec_digits(v);
    if v < 10 {
        assert(s.drop_last() =~= Seq::<u8>::empty());
        assert(dec_value(s.drop_last()) == 0);
    } else {
        lemma_dec_digits(v / 10);
        let front = dec_digits(v / 10);
        assert(s.drop_last() =~= front);
        assert(s[0] == front[0]);
        assert(dec_value(front) > 0);
        assert(front.len() == 1 ==> front[0] != 0x30) by {
            if front.len() == 1 {
                assert(front.drop_last() =~= Seq::<u8>::empty());
                assert(dec_value(front.drop_last()) == 0);
            }
        }
    }
}

/// Canonical digits are the digits of the number they denote.
pub proof fn lemma_dec_value(s: Seq<u8>)
    requires
        is_canonical(s),
    ensures
        dec_digits(dec_value(s)) == s,
    decreases s.len(),
{
    let v = dec_value(s);
    let front = s.drop_last();
    let d = (s.last() - 0x30) as nat;
    if s.len() == 1 {
        assert(dec_value(front) == 0);
        assert(dec_digits(v) =~= s);
    } else {
        assert(front[0] == s[0]);
        assert(is_canonical(front)) by {
            assert forall|i: int| 0 <= i < front.len() implies is_digit(#[trigger] front[i]) by {
                assert(front[i] == s[i]);
            }
        }
        lemma_dec_value(front);
        lemma_dec_positive(front);
        assert(v / 10 == dec_value(front));
        assert(v % 10 == d);
        assert(v >= 10);
        assert(dec_digits(v) =~= s);
    }
}

/// Canonical digits of more than one place denote a positive number, and a
/// single place denotes its digit.
pub proof fn lemma_dec_positive(s: Seq<u8>)
    requires
        is_canonical(s),
    ensures
        s.len() > 1 ==> dec_value(s) >= 10,
        s.len() == 1 ==> dec_value(s) == (s[0] - 0x30) as nat,
        s[0] != 0x30 ==> dec_value(s) >= 1,
    decreases s.len(),
{
    let front = s.drop_last();
    if s.len() == 1 {
        assert(dec_value(front) == 0);
    } else {
        assert(front[0] == s[0]);
        assert(is_canonical(front)) by {
            assert forall|i: int| 0 <= i < front.len() implies is_digit(#[trigger] front[i]) by {
                assert(front[i] == s[i]);
            }
        }
        lemma_dec_positive(front);
    }
}

/// Before its first occurrence a separator does not occur.
pub proof fn lemma_first_index(s: Seq<u8>, sep: u8)
    ensures
        match first_index(s, sep) {
            Some(i) => 0 <= i < s.len() && s[i] == sep && forall|j: int|
                0 <= j < i ==> s[j] != sep,
            None => forall|j: int| 0 <= j < s.len() ==> s[j] != sep,
        },
    decreases s.len(),
{
    if s.len() > 0 && s[0] != sep {
        let t = s.drop_first();
        lemma_first_index(t, sep);
        match first_index(t, sep) {
            Some(i) => {
                assert(t[i] == s[i + 1]);
                assert forall|j: int| 0 <= j < i + 1 implies s[j] != sep by {
                    if j > 0 {
                        assert(t[j - 1] == s[j]);
                    }
                }
            },
            None => {
                assert forall|j: int| 0 <= j < s.len() implies s[j] != sep by {
                    if j > 0 {
                        assert(t[j - 1] == s[j]);
                    }
                }
            },
        }
    }
}

/// A position that holds the separator, with none before it, is the first.
pub proof fn lemma_first_index_is(s: Seq<u8>, sep: u8, i: int)
    requires
        0 <= i < s.len(),
        s[i] == sep,
        forall|j: int| 0 <= j < i ==> s[j] != sep,
    ensures
        first_index(s, sep) == Some(i),
{
    lemma_first_index(s, sep);
}

/// A text in which the separator does not occur has no first occurrence.
pub proof fn lemma_first_index_none(s: Seq<u8>, sep: u8)
    requires
        forall|j: int| 0 <= j < s.len() ==> s[j] != sep,
    ensures
        first_index(s, sep) is None,
{
    lemma_first_index(s, sep);
}

/// Splitting `a`, the separator, `b` at the first separator gives `a` and
/// `b`, if the separator does not occur in `a`.
pub proof fn lemma_split_joined(a: Seq<u8>, sep: u8, b: Seq<u8>)
    requires
        forall|j: int| 0 <= j < a.len() ==> a[j] != sep,
    ensures
        split_at_first(a + seq![sep] + b, sep) == Some((a, b)),
{
    let s = a + seq![sep] + b;
    assert(s[a.len() as int] == sep);
    assert forall|j: int| 0 <= j < a.len() implies s[j] != sep by {
        assert(s[j] == a[j]);
    }
    lemma_first_index_is(s, sep, a.len() as int);
    assert(s.subrange(0, a.len() as int) =~= a);
    assert(s.subrange(a.len() as int + 1, s.len() as int) =~= b);
}

/// What a split gives, joined by the separator, is the text that was split.
pub proof fn lemma_join_split(s: Seq<u8>, sep: u8)
    requires
        split_at_first(s, sep) is Some,
    ensures
        s == split_at_first(s, sep).unwrap().0 + seq![sep] + split_at_first(s, sep).unwrap().1,
        forall|j: int|
            0 <= j < split_at_first(s, sep).unwrap().0.len() ==> split_at_first(
                s,
                sep,
            ).unwrap().0[j] != sep,
{
    lemma_first_index(s, sep);
    let i = first_index(s, sep).unwrap();
    let (a, b) = split_at_first(s, sep).unwrap();
    assert(s =~= a + seq![sep] + b);
    assert forall|j: int| 0 <= j < a.len() implies a[j] != sep by {
        assert(a[j] == s[j]);
    }
}

/// The byte `c` does not occur in `s`.
pub open spec fn free_of(s: Seq<u8>, c: u8) -> bool {
    forall|j: int| 0 <= j < s.len() ==> s[j] != c
}

/// The text of an IPv4 address holds digits and dots only.
pub proof fn lemma_ip_text_free_of(ip: Seq<u8>, c: u8)
    requires
        ip.len() == 4,
        c != DOT,
        !is_digit(c),
    ensures
        free_of(ip_text(ip), c),
{
    let d1 = dec_digits(ip[0] as nat);
    let d2 = dec_digits(ip[1] as nat);
    let d3 = dec_digits(ip[2] as nat);
    let d4 = dec_digits(ip[3] as nat);
    lemma_dec_digits(ip[0] as nat);
    lemma_dec_digits(ip[1] as nat);
    lemma_dec_digits(ip[2] as nat);
    lemma_dec_digits(ip[3] as nat);
    let r2 = d3 + seq![DOT] + d4;
    let r1 = d2 + seq![DOT] + r2;
    let s = d1 + seq![DOT] + r1;
    assert(free_of(r2, c)) by {
        assert forall|j: int| 0 <= j < r2.len() implies r2[j] != c by {
            if j < d3.len() {
                assert(r2[j] == d3[j]);
            } else if j > d3.len() {
                assert(r2[j] == d4[j - d3.len() - 1]);
            }
        }
    }
    assert(free_of(r1, c)) by {
        assert forall|j: int| 0 <= j < r1.len() implies r1[j] != c by {
            if j < d2.len() {
                assert(r1[j] == d2[j]);
            } else if j > d2.len() {
                assert(r1[j] == r2[j - d2.len() - 1]);
            }
        }
    }
    assert(free_of(s, c)) by {
        assert forall|j: int| 0 <= j < s.len() implies s[j] != c by {
            if j < d1.len() {
                assert(s[j] == d1[j]);
            } else if j > d1.len() {
                assert(s[j] == r1[j - d1.len() - 1]);
            }
        }
    }
}

/// The text of an IPv4 address is read back as the address.
pub proof fn ip_round_trip(ip: Seq<u8>)
    requires
        ip.len() == 4,
    ensures
        parse_ip(ip_text(ip)) == Some(ip),
{
    let d1 = dec_digits(ip[0] as nat);
    let d2 = dec_digits(ip[1] as nat);
    let d3 = dec_digits(ip[2] as nat);
    let d4 = dec_digits(ip[3] as nat);
    lemma_dec_digits(ip[0] as nat);
    lemma_dec_digits(ip[1] as nat);
    lemma_dec_digits(ip[2] as nat);
    lemma_dec_digits(ip[3] as nat);
    let r2 = d3 + seq![DOT] + d4;
    let r1 = d2 + seq![DOT] + r2;
    let s = d1 + seq![DOT] + r1;
    assert(s == ip_text(ip));
    lemma_split_joined(d1, DOT, r1);
    lemma_split_joined(d2, DOT, r2);
    lemma_split_joined(d3, DOT, d4);
    let back = parse_ip(s).unwrap();
    assert(back =~= ip);
}

/// A text that is read as an IPv4 address is the text of that address.
pub proof fn ip_text_is_unique(s: Seq<u8>)
    requires
        parse_ip(s) is Some,
    ensures
        parse_ip(s).unwrap().len() == 4,
        s == ip_text(parse_ip(s).unwrap()),
{
    let (o1, r1) = split_at_first(s, DOT).unwrap();
    let (o2, r2) = split_at_first(r1, DOT).unwrap();
    let (o3, o4) = split_at_first(r2, DOT).unwrap();
    lemma_join_split(s, DOT);
    lemma_join_split(r1, DOT);
    lemma_join_split(r2, DOT);
    lemma_dec_value(o1);
    lemma_dec_value(o2);
    lemma_dec_value(o3);
    lemma_dec_value(o4);
}

/// The text of an address is read back as the address.
pub proof fn addr_round_trip(a: SocketAddrView)
    requires
        a.ip.len() == 4,
    ensures
        parse_addr(addr_text(a)) == Some(a),
{
    let h = ip_text(a.ip);
    let dp = dec_digits(a.port as nat);
    lemma_dec_digits(a.port as nat);
    lemma_ip_text_free_of(a.ip, COLON);
    lemma_split_joined(h, COLON, dp);
    ip_round_trip(a.ip);
}

/// A text that is read as an address is the text of that address.
pub proof fn addr_text_is_unique(s: Seq<u8>)
    requires
        parse_addr(s) is Some,
    ensures
        parse_addr(s).unwrap().ip.len() == 4,
        s == addr_text(parse_addr(s).unwrap()),
{
    let (h, p) = split_at_first(s, COLON).unwrap();
    lemma_join_split(s, COLON);
    ip_text_is_unique(h);
    lemma_dec_value(p);
}

/// Every text of a record is read as that record; in particular the text
/// that the record is written as.
pub proof fn enode_round_trip(s: Seq<u8>, r: NodeRecordView)
    requires
        r.wf(),
    ensures
        is_enode_of(s, r) ==> parse_enode(s) == Ok::<NodeRecordView, ParseError>(r),
        is_enode_of(enode_text(r), r),
        parse_enode(enode_text(r)) == Ok::<NodeRecordView, ParseError>(r),
{
    if is_enode_of(s, r) {
        lemma_enode_parses(s, r);
    }
    hex_round_trip(r.id);
    let h = hex_ascii(r.id);
    assert(is_hex(h) && h.len() == 128 && hex_decoded(h) == r.id && enode_text(r)
        == enode_prefix() + (h + seq![AT] + addr_text(r.addr)));
    lemma_enode_parses(enode_text(r), r);
}

/// A text of a record is read as that record.
proof fn lemma_enode_parses(s: Seq<u8>, r: NodeRecordView)
    requires
        r.wf(),
        is_enode_of(s, r),
    ensures
        parse_enode(s) == Ok::<NodeRecordView, ParseError>(r),
{
    let h = choose|h: Seq<u8>| #[trigger]
        is_hex(h) && h.len() == 128 && hex_decoded(h) == r.id && s == enode_prefix() + (h + seq![
            AT,
        ] + addr_text(r.addr));
    let rest = h + seq![AT] + addr_text(r.addr);
    assert(s.subrange(0, 8) =~= enode_prefix());
    assert(s.subrange(8, s.len() as int) =~= rest);
    assert forall|j: int| 0 <= j < h.len() implies h[j] != AT by {
        assert(hex_value(h[j]) is Some);
    }
    lemma_split_joined(h, AT, addr_text(r.addr));
    addr_round_trip(r.addr);
}

/// The digits read so far denote no more than all the digits.
proof fn lemma_prefix_value(s: Seq<u8>, i: int)
    requires
        is_digits(s),
        0 <= i <= s.len(),
    ensures
        dec_value(s.subrange(0, i)) <= dec_value(s),
    decreases s.len() - i,
{
    if i < s.len() {
        let next = s.subrange(0, i + 1);
        assert(next.drop_last() =~= s.subrange(0, i));
        assert(next.last() == s[i]);
        assert(is_digit(s[i]));
        lemma_prefix_value(s, i + 1);
    } else {
        assert(s.subrange(0, i) =~= s);
    }
}

/// Where `sep` first occurs in `s`.
pub fn find_first(s: &[u8], sep: u8) -> (r: Option<usize>)
    ensures
        match r {
            Some(i) => first_index(s@, sep) == Some(i as int),
            None => first_index(s@, sep) is None,
        },
{
    let mut i: usize = 0;
    while i < s.len()
        invariant
            i <= s@.len(),
            forall|j: int| 0 <= j < i ==> s@[j] != sep,
        decreases s@.len() - i,
    {
        if s[i] == sep {
            proof {
                lemma_first_index_is(s@, sep, i as int);
            }
            return Some(i);
        }
        i += 1;
    }
    proof {
        lemma_first_index_none(s@, sep);
    }
    None
}

/// The number up to `max` that `s` is the decimal form of.
pub fn parse_decimal(s: &[u8], max: u32) -> (r: Option<u32>)
    requires
        max <= 65535,
    ensures
        match r {
            Some(v) => decimal(s@, max as nat) == Some(v as nat),
            None => decimal(s@, max as nat) is None,
        },
{
    if s.len() == 0 {
        return None;
    }
    if s.len() > 1 && s[0] == 0x30 {
        return None;
    }
    let mut acc: u32 = 0;
    let mut i: usize = 0;
    while i < s.len()
        invariant
            i <= s@.len(),
            max <= 65535,
            acc <= max,
            is_digits(s@.subrange(0, i as int)),
            acc as nat == dec_value(s@.subrange(0, i as int)),
        decreases s@.len() - i,
    {
        let c = s[i];
        if c < 0x30 || c > 0x39 {
            assert(!is_digit(s@[i as int]));
            return None;
        }
        proof {
            let next = s@.subrange(0, i + 1);
            assert(next.drop_last() =~= s@.subrange(0, i as int));
            assert(next.last() == c);
            assert forall|j: int| 0 <= j < next.len() implies is_digit(#[trigger] next[j]) by {
                if j < i {
                    assert(next[j] == s@.subrange(0, i as int)[j]);
                }
            }
        }
        acc = acc * 10 + (c - 0x30) as u32;
        if acc > max {
            proof {
                if is_digits(s@) {
                    lemma_prefix_value(s@, i + 1);
                }
            }
            return None;
        }
        i += 1;
    }
    proof {
        assert(s@.subrange(0, i as int) =~= s@);
    }
    Some(acc)
}

/// Appends the decimal digits of `v` to `out`.
pub fn push_decimal(out: &mut Vec<u8>, v: u32)
    ensures
        final(out)@ == old(out)@ + dec_digits(v as nat),
{
    let mut digits: Vec<u8> = Vec::new();
    digits.push(0x30 + (v % 10) as u8);
    let mut rest: u32 = v / 10;
    proof {
        if v >= 10 {
            assert(dec_digits(v as nat) =~= dec_digits(rest as nat) + digits@);
        } else {
            assert(dec_digits(v as nat) =~= digits@);
        }
    }
    while rest > 0
        invariant
            dec_digits(v as nat) == (if rest == 0 {
                digits@
            } else {
                dec_digits(rest as nat) + digits@
            }),
        decreases rest,
    {
        let ghost before = digits@;
        let d: u8 = 0x30 + (rest % 10) as u8;
        digits.insert(0, d);
        proof {
            assert(digits@ =~= seq![d] + before);
            if rest >= 10 {
                assert(dec_digits(rest as nat) == dec_digits((rest / 10) as nat).push(d));
                assert(dec_digits(v as nat) =~= dec_digits((rest / 10) as nat) + digits@);
            } else {
                assert(dec_digits(rest as nat) =~= seq![d]);
                assert(dec_digits(v as nat) =~= digits@);
            }
        }
        rest = rest / 10;
    }
    out.extend_from_slice(digits.as_slice());
}

/// The IPv4 address that `s` is the text of.
pub fn parse_ipv4(s: &[u8]) -> (r: Option<[u8; 4]>)
    ensures
        match r {
            Some(ip) => parse_ip(s@) == Some(ip@),
            None => parse_ip(s@) is None,
        },
{
    let i1 = match find_first(s, DOT) {
        None => { return None; },
        Some(i) => i,
    };
    proof {
        lemma_first_index(s@, DOT);
        assert(i1 < s@.len());
    }
    let n0 = s.len();
    let o1 = slice_subrange(s, 0, i1);
    let r1 = slice_subrange(s, i1 + 1, n0);
    let i2 = match find_first(r1, DOT) {
        None => { return None; },
        Some(i) => i,
    };
    proof {
        lemma_first_index(r1@, DOT);
        assert(i2 < r1@.len());
    }
    let n1 = r1.len();
    let o2 = slice_subrange(r1, 0, i2);
    let r2 = slice_subrange(r1, i2 + 1, n1);
    let i3 = match find_first(r2, DOT) {
        None => { return None; },
        Some(i) => i,
    };
    proof {
        lemma_first_index(r2@, DOT);
        assert(i3 < r2@.len());
    }
    let n2 = r2.len();
    let o3 = slice_subrange(r2, 0, i3);
    let o4 = slice_subrange(r2, i3 + 1, n2);
    let a = match parse_decimal(o1, 255) {
        None => { return None; },
        Some(v) => v as u8,
    };
    let b = match parse_decimal(o2, 255) {
        None => { return None; },
        Some(v) => v as u8,
    };
    let c = match parse_decimal(o3, 255) {
        None => { return None; },
        Some(v) => v as u8,
    };
    let d = match parse_decimal(o4, 255) {
        None => { return None; },
        Some(v) => v as u8,
    };
    let ip: [u8; 4] = [a, b, c, d];
    proof {
        assert(ip@ =~= parse_ip(s@).unwrap());
    }
    Some(ip)
}

/// Appends the text of an IPv4 address to `out`.
pub fn push_ipv4(out: &mut Vec<u8>, ip: &[u8; 4])
    ensures
        final(out)@ == old(out)@ + ip_text(ip@),
{
    let ghost before = out@;
    push_decimal(out, ip[0] as u32);
    out.push(DOT);
    push_decimal(out, ip[1] as u32);
    out.push(DOT);
    push_decimal(out, ip[2] as u32);
    out.push(DOT);
    push_decimal(out, ip[3] as u32);
    proof {
        assert(out@ =~= before + ip_text(ip@));
    }
}

impl SocketAddr {
    /// The socket address that `s` is the text of.
    pub fn parse(s: &[u8]) -> (r: Option<SocketAddr>)
        ensures
            match r {
                Some(a) => parse_addr(s@) == Some(a@),
                None => parse_addr(s@) is None,
            },
    {
        let at = match find_first(s, COLON) {
            None => { return None; },
            Some(i) => i,
        };
        proof {
            lemma_first_index(s@, COLON);
            assert(at < s@.len());
        }
        let n = s.len();
        let h = slice_subrange(s, 0, at);
        let p = slice_subrange(s, at + 1, n);
        let ip = match parse_ipv4(h) {
            None => { return None; },
            Some(ip) => ip,
        };
        let port = match parse_decimal(p, 65535) {
            None => { return None; },
            Some(v) => v as u16,
        };
        Some(SocketAddr { ip, port })
    }

    /// The text of the address.
    pub fn to_text(&self) -> (out: Vec<u8>)
        ensures
            out@ == addr_text(self@),
    {
        let mut out: Vec<u8> = Vec::new();
        push_ipv4(&mut out, &self.ip);
        out.push(COLON);
        push_decimal(&mut out, self.port as u32);
        proof {
            assert(out@ =~= addr_text(self@));
        }
        out
    }
}

impl NodeRecord {
    /// The node record that `uri` is the text of.
    pub fn parse(uri: &[u8]) -> (r: Result<NodeRecord, ParseError>)
        ensures
            match r {
                Ok(n) => parse_enode(uri@) == Ok::<NodeRecordView, ParseError>(n@),
                Err(e) => parse_enode(uri@) == Err::<NodeRecordView, ParseError>(e),
            },
    {
        if uri.len() < 8 {
            return Err(ParseError::NotEnode);
        }
        let prefix: [u8; 8] = [0x65, 0x6e, 0x6f, 0x64, 0x65, 0x3a, 0x2f, 0x2f];
        let mut k: usize = 0;
        while k < 8
            invariant
                k <= 8 <= uri@.len(),
                prefix@ == enode_prefix(),
                forall|j: int| 0 <= j < k ==> uri@[j] == prefix@[j],
            decreases 8 - k,
        {
            if uri[k] != prefix[k] {
                assert(uri@.subrange(0, 8)[k as int] != enode_prefix()[k as int]);
                return Err(ParseError::NotEnode);
            }
            k += 1;
        }
        assert(uri@.subrange(0, 8) =~= enode_prefix());
        let rest = slice_subrange(uri, 8, uri.len());
        let at = match find_first(rest, AT) {
            None => { return Err(ParseError::MissingAddress); },
            Some(i) => i,
        };
        proof {
            lemma_first_index(rest@, AT);
            assert(at < rest@.len());
        }
        let h = slice_subrange(rest, 0, at);
        let rest_len = rest.len();
        let a = slice_subrange(rest, at + 1, rest_len);
        let bytes = match from_hex(h) {
            None => { return Err(ParseError::MalformedHex); },
            Some(bytes) => bytes,
        };
        if bytes.len() != 64 {
            return Err(ParseError::WrongKeyLength);
        }
        let addr = match SocketAddr::parse(a) {
            None => { return Err(ParseError::MalformedAddress); },
            Some(addr) => addr,
        };
        let mut id = [0u8; 64];
        let mut i: usize = 0;
        while i < 64
            invariant
                i <= 64,
                bytes@.len() == 64,
                forall|j: int| 0 <= j < i ==> id@[j] == bytes@[j],
            decreases 64 - i,
        {
            id[i] = bytes[i];
            i += 1;
        }
        assert(id@ =~= bytes@);
        Ok(NodeRecord { addr, id: H512(id) })
    }

    /// The node record that `s` is the text of.
    pub fn from_str(s: &str) -> (r: Result<NodeRecord, ParseError>)
        ensures
            match r {
                Ok(n) => parse_enode(s.spec_bytes()) == Ok::<NodeRecordView, ParseError>(n@),
                Err(e) => parse_enode(s.spec_bytes()) == Err::<NodeRecordView, ParseError>(e),
            },
    {
        NodeRecord::parse(s.as_bytes())
    }

    /// The text of the record: `enode://`, the identifier in lower-case
    /// hexadecimal digits, `@`, and the address.
    pub fn to_enode(&self) -> (out: Vec<u8>)
        ensures
            out@ == enode_text(self@),
    {
        let mut out: Vec<u8> = Vec::new();
        let prefix: [u8; 8] = [0x65, 0x6e, 0x6f, 0x64, 0x65, 0x3a, 0x2f, 0x2f];
        out.extend_from_slice(prefix.as_slice());
        let hex = to_hex(self.id.0.as_slice());
        out.extend_from_slice(hex.as_slice());
        out.push(AT);
        let addr = self.addr.to_text();
        out.extend_from_slice(addr.as_slice());
        proof {
            assert(prefix@ =~= enode_prefix());
            assert(out@ =~= enode_text(self@));
        }
        out
    }
}

/// Only the texts of a record are read as that record.
pub proof fn enode_text_is_unique(s: Seq<u8>)
    requires
        parse_enode(s) is Ok,
    ensures
        parse_enode(s).unwrap().wf(),
        is_enode_of(s, parse_enode(s).unwrap()),
{
    let rest = s.subrange(8, s.len() as int);
    let (h, a) = split_at_first(rest, AT).unwrap();
    lemma_join_split(rest, AT);
    addr_text_is_unique(a);
    let r = parse_enode(s).unwrap();
    assert(s =~= s.subrange(0, 8) + rest);
    assert(is_hex(h) && h.len() == 128 && hex_decoded(h) == r.id && s == enode_prefix() + (h
        + seq![AT] + addr_text(r.addr)));
}

} // verus!
