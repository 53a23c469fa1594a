//! Hashing, message authentication and hexadecimal text.

use vstd::prelude::*;
use crate::primitives::H256;
use hmac::{KeyInit, Mac};
use sha2::Digest;

verus! {

/// The Keccak-256 digest of a byte string: what `sha3::Keccak256::digest`
/// returns for it.
pub uninterp spec fn keccak256_digest(data: Seq<u8>) -> Seq<u8>;

/// The SHA-256 digest of a byte string: what `sha2::Sha256::digest` returns
/// for it.
pub uninterp spec fn sha256_digest(data: Seq<u8>) -> Seq<u8>;

/// The HMAC-SHA256 tag of a message under a key: what
/// `hmac::Hmac<sha2::Sha256>` returns for them.
pub uninterp spec fn hmac_sha256_tag(key: Seq<u8>, message: Seq<u8>) -> Seq<u8>;

/// Calls `sha3::Keccak256::digest`: the result is the 32-byte Keccak-256
/// digest of `data`.
#[verifier::external_body]
fn keccak256_bytes(data: &[u8]) -> (out: [u8; 32])
    ensures
        out@ == keccak256_digest(data@),
{
    sha3::Keccak256::digest(data).into()
}

/// Calls `sha2::Sha256::digest`: the result is the 32-byte SHA-256 digest
/// of `data`.
#[verifier::external_body]
fn sha256_bytes(data: &[u8]) -> (out: [u8; 32])
    ensures
        out@ == sha256_digest(data@),
{
    sha2::Sha256::digest(data).into()
}

/// Runs `hmac::Hmac<sha2::Sha256>` over one message: keyed with
/// `new_from_slice` (which takes a key of any length), fed with `update`,
/// closed with `finalize`.  The result is the 32-byte tag.
#[verifier::external_body]
fn hmac_sha256_bytes(key: &[u8], message: &[u8]) -> (out: [u8; 32])
    ensures
        out@ == hmac_sha256_tag(key@, message@),
{
    let mut mac = hmac::Hmac::<sha2::Sha256>::new_from_slice(key).expect("any key length");
    mac.update(message);
    mac.finalize().into_bytes().into()
}

/// Keccak-256 of `data`.
pub fn keccak256(data: &[u8]) -> (out: H256)
    ensures
        out@ == keccak256_digest(data@),
{
    H256(keccak256_bytes(data))
}

/// SHA-256 of `data`.
pub fn sha256(data: &[u8]) -> (out: H256)
    ensures
        out@ == sha256_digest(data@),
{
    H256(sha256_bytes(data))
}

/// The pieces of `parts`, one after the other.
pub open spec fn concat_all(parts: Seq<&[u8]>) -> Seq<u8>
    decreases parts.len(),
{
    if parts.len() == 0 {
        Seq::empty()
    } else {
        concat_all(parts.drop_last()) + parts.last()@
    }
}

/// HMAC-SHA256 under `key` of the message made of the pieces of `input`,
/// in order, followed by `auth_data`.
pub fn hmac_sha256(key: &[u8], input: &[&[u8]], auth_data: &[u8]) -> (out: H256)
    ensures
        out@ == hmac_sha256_tag(key@, concat_all(input@) + auth_data@),
{
    let mut message: Vec<u8> = Vec::new();
    let mut i: usize = 0;
    while i < input.len()
        invariant
            i <= input@.len(),
            message@ == concat_all(input@.take(i as int)),
        decreases input@.len() - i,
    {
        let piece: &[u8] = input[i];
        message.extend_from_slice(piece);
        proof {
            let next = input@.take(i + 1);
            assert(next.drop_last() =~= input@.take(i as int));
            assert(next.last() == input@[i as int]);
        }
        i += 1;
    }
    proof {
        assert(input@.take(i as int) =~= input@);
    }
    message.extend_from_slice(auth_data);
    assert(message@ == concat_all(input@) + auth_data@);
    let tag = hmac_sha256_bytes(key, message.as_slice());
    H256(tag)
}

/// The ASCII code of the lower-case hexadecimal digit of a value below 16.
pub open spec fn hex_digit(nibble: int) -> u8 {
    if nibble < 10 {
        (0x30 + nibble) as u8
    } else {
        (0x61 + nibble - 10) as u8
    }
}

/// Lower-case hexadecimal form of a byte string, in ASCII: two digits per
/// byte, the high half first.
pub open spec fn hex_ascii(data: Seq<u8>) -> Seq<u8> {
    Seq::new(
        2 * data.len(),
        |i: int| if i % 2 == 0 {
            hex_digit(data[i / 2] as int / 16)
        } else {
            hex_digit(data[i / 2] as int % 16)
        },
    )
}

/// Lower-case hexadecimal form of a byte string, as text.
pub open spec fn hex_text(data: Seq<u8>) -> Seq<char> {
    Seq::new(2 * data.len(), |i: int| hex_ascii(data)[i] as char)
}

/// The value of a hexadecimal digit, upper or lower case.
pub open spec fn hex_value(c: u8) -> Option<u8> {
    if 0x30 <= c <= 0x39 {
        Some((c - 0x30) as u8)
    } else if 0x61 <= c <= 0x66 {
        Some((c - 0x61 + 10) as u8)
    } else if 0x41 <= c <= 0x46 {
        Some((c - 0x41 + 10) as u8)
    } else {
        None
    }
}

/// An even number of hexadecimal digits.
pub open spec fn is_hex(s: Seq<u8>) -> bool {
    s.len() % 2 == 0 && forall|i: int| 0 <= i < s.len() ==> hex_value(#[trigger] s[i]) is Some
}

/// The bytes that hexadecimal digits spell, two digits per byte.
pub open spec fn hex_decoded(s: Seq<u8>) -> Seq<u8> {
    Seq::new(
        s.len() / 2,
        |i: int| (hex_value(s[2 * i]).unwrap() * 16 + hex_value(s[2 * i + 1]).unwrap()) as u8,
    )
}

/// The error of `hex::decode`, of which nothing is looked at.
#[verifier::external_type_specification]
#[verifier::external_body]
pub struct ExFromHexError(hex::FromHexError);

/// Calls `hex::encode`: two lower-case digits for every byte of `data`.
#[verifier::external_body]
fn hex_encode(data: &[u8]) -> (out: String)
    ensures
        out@ == hex_text(data@),
{
    hex::encode(data)
}

/// Calls `hex::decode`: it succeeds on an even number of hexadecimal
/// digits of either case, and gives the bytes that they spell.
#[verifier::external_body]
fn hex_decode(data: &[u8]) -> (r: Result<Vec<u8>, hex::FromHexError>)
    ensures
        match r {
            Ok(bytes) => is_hex(data@) && bytes@ == hex_decoded(data@),
            Err(_) => !is_hex(data@),
        },
{
    hex::decode(data)
}

/// The text that stands for `s` in debug output: its lower-case
/// hexadecimal form.
pub fn hex_debug(s: &[u8]) -> (out: String)
    ensures
        out@ == hex_text(s@),
{
    hex_encode(s)
}

/// The lower-case hexadecimal form of `data`, in ASCII.
pub fn to_hex(data: &[u8]) -> (out: Vec<u8>)
    ensures
        out@ == hex_ascii(data@),
{
    let text = hex_encode(data);
    proof {
        assert(vstd::utf8::is_ascii_chars(text@)) by {
            assert forall|i: int| 0 <= i < text@.len() implies '\0' <= #[trigger] text@[i]
                <= '\u{7f}' by {
                assert(text@[i] == hex_ascii(data@)[i] as char);
            }
        }
        vstd::utf8::is_ascii_chars_encode_utf8(text@);
    }
    let bytes = text.as_str().as_bytes();
    let mut out: Vec<u8> = Vec::new();
    out.extend_from_slice(bytes);
    proof {
        assert(out@ =~= hex_ascii(data@)) by {
            assert forall|i: int| 0 <= i < out@.len() implies out@[i] == hex_ascii(data@)[i] by {
                assert(text@[i] == hex_ascii(data@)[i] as char);
                assert(text@[i] as u8 == out@[i]);
            }
        }
    }
    out
}

/// The bytes that the hexadecimal digits `text` spell, if `text` is an
/// even number of hexadecimal digits.
pub fn from_hex(text: &[u8]) -> (r: Option<Vec<u8>>)
    ensures
        match r {
            Some(bytes) => is_hex(text@) && bytes@ == hex_decoded(text@),
            None => !is_hex(text@),
        },
{
    match hex_decode(text) {
        Ok(bytes) => Some(bytes),
        Err(_) => None,
    }
}

/// The hexadecimal form of a byte string spells that byte string.
pub proof fn hex_round_trip(data: Seq<u8>)
    ensures
        is_hex(hex_ascii(data)),
        hex_ascii(data).len() == 2 * data.len(),
        hex_decoded(hex_ascii(data)) == data,
{
    let h = hex_ascii(data);
    assert forall|i: int| 0 <= i < h.len() implies hex_value(#[trigger] h[i]) is Some by {
        let b = data[i / 2] as int;
        assert(0 <= b / 16 < 16);
        assert(0 <= b % 16 < 16);
    }
    assert forall|i: int| 0 <= i < data.len() implies hex_decoded(h)[i] == data[i] by {
        let b = data[i] as int;
        assert((2 * i) / 2 == i);
        assert((2 * i + 1) / 2 == i);
        assert((2 * i) % 2 == 0);
        assert((2 * i + 1) % 2 == 1);
        assert(h[2 * i] == hex_digit(b / 16));
        assert(h[2 * i + 1] == hex_digit(b % 16));
        assert(hex_value(hex_digit(b / 16)) == Some((b / 16) as u8));
        assert(hex_value(hex_digit(b % 16)) == Some((b % 16) as u8));
        assert((b / 16) * 16 + b % 16 == b);
    }
    assert(hex_decoded(h) =~= data);
}

} // verus!
