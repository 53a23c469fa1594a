//! RLP framing, as the `rlp` crate does it, and the byte forms of the
//! values that go into frames.
//!
//! Framing and unframing are the `rlp` crate's.  What it writes is stated
//! here byte by byte; what it reads is named.  What is decided here is how
//! an unsigned integer becomes the payload of an RLP string and back: the
//! shortest big-endian form, which has no leading zero byte.

use vstd::prelude::*;

verus! {

/// The error of the `rlp` crate's decoder, of which nothing is looked at.
#[verifier::external_type_specification]
#[verifier::external_body]
pub struct ExDecoderError(rlp::DecoderError);

/// The `rlp` crate's encoder of lists, which is filled item by item.
#[verifier::external_type_specification]
#[verifier::external_body]
pub struct ExRlpStream(rlp::RlpStream);

/// The encoding of item `index` of the RLP list that `data` encodes, where
/// `rlp::Rlp::at` finds one.
pub uninterp spec fn rlp_item(data: Seq<u8>, index: nat) -> Option<Seq<u8>>;

/// The payload of the RLP string that `item` encodes, where `rlp::decode`
/// reads `item` as a byte string.
pub uninterp spec fn rlp_payload(item: Seq<u8>) -> Option<Seq<u8>>;

/// The RLP encoding of the byte string `payload`.  A single byte below
/// 0x80 stands for itself.  Up to 55 bytes follow a byte that is 0x80 plus
/// their number.  More bytes follow their number in its shortest big-endian
/// form, which follows a byte that is 0xb7 plus the length of that form.
pub open spec fn rlp_string(payload: Seq<u8>) -> Seq<u8> {
    if payload.len() == 1 && payload[0] < 0x80 {
        payload
    } else if payload.len() <= 55 {
        seq![(0x80 + payload.len()) as u8] + payload
    } else {
        seq![(0xb7 + be_bytes(payload.len()).len()) as u8] + be_bytes(payload.len()) + payload
    }
}

/// The chunks of `items`, one after the other.
pub open spec fn joined(items: Seq<Seq<u8>>) -> Seq<u8>
    decreases items.len(),
{
    if items.len() == 0 {
        Seq::empty()
    } else {
        joined(items.drop_last()) + items.last()
    }
}

/// The RLP encoding of the list whose items have the encodings `items`:
/// the items one after the other, behind a byte that is 0xc0 plus their
/// length where that is at most 55, and otherwise behind their length in
/// its shortest big-endian form, which follows a byte that is 0xf7 plus the
/// length of that form.
pub open spec fn rlp_list(items: Seq<Seq<u8>>) -> Seq<u8> {
    let body = joined(items);
    if body.len() <= 55 {
        seq![(0xc0 + body.len()) as u8] + body
    } else {
        seq![(0xf7 + be_bytes(body.len()).len()) as u8] + be_bytes(body.len()) + body
    }
}

/// The longest text whose length the `rlp` crate writes in full: it keeps
/// 32 bits of a length.
pub const RLP_MAX_LEN: usize = 0xffff_ffff;

/// The item encodings that were appended to a stream, in order.
pub uninterp spec fn rlp_stream_items(s: rlp::RlpStream) -> Seq<Seq<u8>>;

/// The number of items that a stream was opened for.
pub uninterp spec fn rlp_stream_len(s: rlp::RlpStream) -> nat;

/// Calls `rlp::Rlp::at` on a view of `data` and copies out the bytes of the
/// item found (`as_raw`).  What comes back depends on the arguments alone;
/// no more is claimed of it.
#[verifier::external_body]
pub(crate) fn rlp_item_at(data: &[u8], index: usize) -> (r: Result<Vec<u8>, rlp::DecoderError>)
    ensures
        match r {
            Ok(item) => rlp_item(data@, index as nat) == Some(item@),
            Err(_) => rlp_item(data@, index as nat) is None,
        },
{
    match rlp::Rlp::new(data).at(index) {
        Ok(item) => Ok(item.as_raw().to_vec()),
        Err(e) => Err(e),
    }
}

/// Calls `rlp::decode::<Vec<u8>>`: the payload of the string that `item`
/// encodes, where the crate reads one.  What comes back depends on the
/// argument alone; no more is claimed of it.
#[verifier::external_body]
pub(crate) fn rlp_bytes(item: &[u8]) -> (r: Result<Vec<u8>, rlp::DecoderError>)
    ensures
        match r {
            Ok(payload) => rlp_payload(item@) == Some(payload@),
            Err(_) => rlp_payload(item@) is None,
        },
{
    rlp::decode::<Vec<u8>>(item)
}

/// Calls `rlp::encode` on a byte string of a length that fits 32 bits: the
/// result is the RLP encoding of the string.
#[verifier::external_body]
pub(crate) fn rlp_encode_bytes(payload: &[u8]) -> (out: Vec<u8>)
    requires
        payload@.len() <= RLP_MAX_LEN,
    ensures
        out@ == rlp_string(payload@),
{
    rlp::encode(&payload).to_vec()
}

/// Calls `rlp::RlpStream::new_list`: a stream that expects `len` items and
/// holds none yet.
#[verifier::external_body]
pub(crate) fn rlp_stream_new_list(len: usize) -> (s: rlp::RlpStream)
    requires
        len > 0,
    ensures
        rlp_stream_len(s) == len,
        rlp_stream_items(s) == Seq::<Seq<u8>>::empty(),
{
    rlp::RlpStream::new_list(len)
}

/// Calls `rlp::RlpStream::append_raw` with one item.  The stream panics on
/// more items than it was opened for, which the precondition excludes.
#[verifier::external_body]
pub(crate) fn rlp_stream_append_raw(s: &mut rlp::RlpStream, item: &[u8])
    requires
        rlp_stream_items(*old(s)).len() < rlp_stream_len(*old(s)),
    ensures
        rlp_stream_len(*final(s)) == rlp_stream_len(*old(s)),
        rlp_stream_items(*final(s)) == rlp_stream_items(*old(s)).push(item@),
{
    s.append_raw(item, 1);
}

/// Calls `rlp::RlpStream::out`, which panics unless the stream has all the
/// items it was opened for: the chunks that were appended, behind the header
/// of a list of their length, where that length fits 32 bits.
#[verifier::external_body]
pub(crate) fn rlp_stream_out(s: rlp::RlpStream) -> (out: Vec<u8>)
    requires
        rlp_stream_items(s).len() == rlp_stream_len(s),
        joined(rlp_stream_items(s)).len() <= RLP_MAX_LEN,
    ensures
        out@ == rlp_list(rlp_stream_items(s)),
{
    s.out().to_vec()
}

/// Appending a chunk appends its bytes.
pub proof fn lemma_joined_push(items: Seq<Seq<u8>>, chunk: Seq<u8>)
    ensures
        joined(items.push(chunk)) == joined(items) + chunk,
{
    assert(items.push(chunk).drop_last() =~= items);
}

/// The encoding of a string of up to 55 bytes is at most one byte longer
/// than the string.
pub proof fn lemma_rlp_string_len(payload: Seq<u8>)
    requires
        payload.len() <= 55,
    ensures
        1 <= rlp_string(payload).len() <= payload.len() + 1,
{
}

/// The number that a byte string denotes in big-endian order.
pub open spec fn be_value(s: Seq<u8>) -> nat
    decreases s.len(),
{
    if s.len() == 0 {
        0
    } else {
        be_value(s.drop_last()) * 256 + s.last() as nat
    }
}

/// The shortest big-endian byte string that denotes `v`; empty for zero.
pub open spec fn be_bytes(v: nat) -> Seq<u8>
    decreases v,
{
    if v == 0 {
        Seq::empty()
    } else {
        be_bytes(v / 256).push((v % 256) as u8)
    }
}

/// A byte string without a leading zero byte.
pub open spec fn no_leading_zero(s: Seq<u8>) -> bool {
    s.len() == 0 || s[0] != 0
}

/// 256 to the power `n`.
pub open spec fn pow256(n: nat) -> nat
    decreases n,
{
    if n == 0 {
        1
    } else {
        256 * pow256((n - 1) as nat)
    }
}

/// Eight bytes denote a number below 2^64.
pub proof fn lemma_pow256_8()
    ensures
        pow256(8) == 0x1_0000_0000_0000_0000,
{
    reveal_with_fuel(pow256, 9);
}

/// A byte string of length `n` denotes a number below 256^n.
pub proof fn lemma_be_value_bound(s: Seq<u8>)
    ensures
        be_value(s) < pow256(s.len()),
    decreases s.len(),
{
    if s.len() > 0 {
        lemma_be_value_bound(s.drop_last());
        let hi = be_value(s.drop_last());
        let p = pow256((s.len() - 1) as nat);
        assert(hi + 1 <= p);
        assert(hi * 256 + 256 <= p * 256) by (nonlinear_arith)
            requires
                hi + 1 <= p,
        ;
    }
}

/// The power grows with the exponent.
pub proof fn lemma_pow256_monotone(a: nat, b: nat)
    requires
        a <= b,
    ensures
        pow256(a) <= pow256(b),
        pow256(a) >= 1,
    decreases b,
{
    if a < b {
        lemma_pow256_monotone(a, (b - 1) as nat);
    } else if a > 0 {
        lemma_pow256_monotone((a - 1) as nat, (a - 1) as nat);
    }
}

/// The shortest form denotes the number it was made from.
pub proof fn lemma_be_value_of_bytes(v: nat)
    ensures
        be_value(be_bytes(v)) == v,
        no_leading_zero(be_bytes(v)),
    decreases v,
{
    if v > 0 {
        lemma_be_value_of_bytes(v / 256);
        let front = be_bytes(v / 256);
        let s = be_bytes(v);
        assert(s.drop_last() =~= front);
        assert(s.last() == (v % 256) as u8);
        if front.len() == 0 {
            assert(v / 256 == 0);
            assert(s[0] != 0);
        } else {
            assert(s[0] == front[0]);
        }
    }
}

/// A byte string without a leading zero is the shortest form of the number
/// it denotes.
pub proof fn lemma_be_bytes_of_value(s: Seq<u8>)
    requires
        no_leading_zero(s),
    ensures
        be_bytes(be_value(s)) == s,
    decreases s.len(),
{
    if s.len() > 0 {
        let front = s.drop_last();
        let v = be_value(s);
        if front.len() == 0 {
            assert(be_value(front) == 0);
            assert(v == s[0] as nat);
            assert(v / 256 == 0);
            assert(be_bytes(v / 256) =~= Seq::<u8>::empty());
            assert(be_bytes(v) =~= s);
        } else {
            assert(front[0] == s[0]);
            lemma_be_bytes_of_value(front);
            lemma_be_value_positive(front);
            assert(v / 256 == be_value(front));
            assert(v % 256 == s.last() as nat);
            assert(be_bytes(v) =~= s);
        }
    }
}

/// A non-empty byte string without a leading zero denotes a positive number.
pub proof fn lemma_be_value_positive(s: Seq<u8>)
    requires
        s.len() > 0,
        s[0] != 0,
    ensures
        be_value(s) > 0,
    decreases s.len(),
{
    if s.len() > 1 {
        assert(s.drop_last()[0] == s[0]);
        lemma_be_value_positive(s.drop_last());
    } else {
        assert(be_value(s.drop_last()) == 0);
    }
}

/// The shortest form of a number below 256^n has at most `n` bytes.
pub proof fn lemma_be_bytes_len(v: nat, n: nat)
    requires
        v < pow256(n),
    ensures
        be_bytes(v).len() <= n,
    decreases v,
{
    if v > 0 {
        assert(n > 0) by {
            if n == 0 {
                assert(pow256(0) == 1);
            }
        }
        let p = pow256((n - 1) as nat);
        assert(v / 256 < p) by (nonlinear_arith)
            requires
                v < 256 * p,
        ;
        lemma_be_bytes_len(v / 256, (n - 1) as nat);
    }
}

/// The shortest big-endian form of `v`.
pub fn uint_to_bytes(v: u64) -> (out: Vec<u8>)
    ensures
        out@ == be_bytes(v as nat),
        out@.len() <= 8,
{
    let mut out: Vec<u8> = Vec::new();
    let mut rest: u64 = v;
    while rest > 0
        invariant
            be_bytes(v as nat) == be_bytes(rest as nat) + out@,
        decreases rest,
    {
        let digit: u8 = (rest % 256) as u8;
        let ghost before = out@;
        out.insert(0, digit);
        proof {
            assert(out@ =~= seq![digit] + before);
            assert(be_bytes(rest as nat) == be_bytes((rest / 256) as nat).push(digit));
            assert(be_bytes(v as nat) =~= be_bytes((rest / 256) as nat) + out@);
        }
        rest = rest / 256;
    }
    proof {
        assert(be_bytes(0) =~= Seq::<u8>::empty());
        assert(be_bytes(v as nat) =~= out@);
        lemma_pow256_8();
        lemma_be_bytes_len(v as nat, 8);
    }
    out
}

/// The number that `payload` denotes, if `payload` is the shortest form of
/// a number below 2^64.
pub fn uint_from_bytes(payload: &[u8]) -> (r: Option<u64>)
    ensures
        match r {
            Some(v) => payload@ == be_bytes(v as nat),
            None => payload@.len() > 8 || !no_leading_zero(payload@),
        },
{
    if payload.len() > 8 {
        return None;
    }
    if payload.len() > 0 && payload[0] == 0 {
        return None;
    }
    let mut acc: u64 = 0;
    let mut i: usize = 0;
    while i < payload.len()
        invariant
            i <= payload@.len() <= 8,
            acc as nat == be_value(payload@.take(i as int)),
        decreases payload@.len() - i,
    {
        proof {
            let next = payload@.take(i + 1);
            assert(next.drop_last() =~= payload@.take(i as int));
            assert(next.last() == payload@[i as int]);
            lemma_be_value_bound(next);
            lemma_pow256_monotone((i + 1) as nat, 8);
            lemma_pow256_8();
        }
        acc = acc * 256 + payload[i] as u64;
        i += 1;
    }
    proof {
        assert(payload@.take(i as int) =~= payload@);
        lemma_be_bytes_of_value(payload@);
    }
    Some(acc)
}

/// `s` without its leading zero bytes.
pub open spec fn strip_zeros(s: Seq<u8>) -> Seq<u8>
    decreases s.len(),
{
    if s.len() > 0 && s[0] == 0 {
        strip_zeros(s.drop_first())
    } else {
        s
    }
}

/// `s` with zero bytes in front, to the length `n`.
pub open spec fn pad_zeros(s: Seq<u8>, n: nat) -> Seq<u8> {
    Seq::new((n - s.len()) as nat, |i: int| 0u8) + s
}

/// Stripping what was padded gives back a string without a leading zero.
pub proof fn lemma_strip_pad(s: Seq<u8>, n: nat)
    requires
        no_leading_zero(s),
        s.len() <= n,
    ensures
        strip_zeros(pad_zeros(s, n)) == s,
    decreases n - s.len(),
{
    let p = pad_zeros(s, n);
    if s.len() < n {
        assert(p[0] == 0);
        assert(p.drop_first() =~= pad_zeros(s, (n - 1) as nat));
        lemma_strip_pad(s, (n - 1) as nat);
    } else {
        assert(p =~= s);
    }
}

/// Padding what was stripped gives back the string.
pub proof fn lemma_pad_strip(s: Seq<u8>)
    ensures
        strip_zeros(s).len() <= s.len(),
        no_leading_zero(strip_zeros(s)),
        pad_zeros(strip_zeros(s), s.len()) == s,
    decreases s.len(),
{
    if s.len() > 0 && s[0] == 0 {
        lemma_pad_strip(s.drop_first());
        assert(pad_zeros(strip_zeros(s), s.len()) =~= s) by {
            let t = strip_zeros(s.drop_first());
            let q = pad_zeros(t, (s.len() - 1) as nat);
            assert(q == s.drop_first());
            let p = pad_zeros(t, s.len());
            assert(p.len() == s.len());
            assert forall|i: int| 0 <= i < s.len() implies p[i] == s[i] by {
                if i > 0 {
                    assert(q[i - 1] == s.drop_first()[i - 1]);
                    if i < s.len() - t.len() {
                        assert(p[i] == 0);
                        assert(q[i - 1] == 0);
                    } else {
                        assert(p[i] == t[i - (s.len() - t.len())]);
                        assert(q[i - 1] == t[(i - 1) - (s.len() - 1 - t.len())]);
                    }
                }
            }
        }
    } else {
        assert(pad_zeros(s, s.len()) =~= s);
    }
}

/// The bytes of a fixed-width big-endian number without its leading zeros.
pub fn strip_leading_zeros(bytes: &[u8]) -> (out: Vec<u8>)
    ensures
        out@ == strip_zeros(bytes@),
{
    let mut start: usize = 0;
    assert(bytes@.skip(0) =~= bytes@);
    while start < bytes.len() && bytes[start] == 0
        invariant
            start <= bytes@.len(),
            strip_zeros(bytes@) == strip_zeros(bytes@.skip(start as int)),
        decreases bytes@.len() - start,
    {
        proof {
            let t = bytes@.skip(start as int);
            assert(t[0] == 0);
            assert(t.drop_first() =~= bytes@.skip(start + 1));
        }
        start += 1;
    }
    let mut out: Vec<u8> = Vec::new();
    let mut i: usize = start;
    while i < bytes.len()
        invariant
            start <= i <= bytes@.len(),
            out@ == bytes@.subrange(start as int, i as int),
        decreases bytes@.len() - i,
    {
        out.push(bytes[i]);
        assert(out@ =~= bytes@.subrange(start as int, i + 1));
        i += 1;
    }
    proof {
        let t = bytes@.skip(start as int);
        assert(out@ =~= t);
        if t.len() > 0 {
            assert(t[0] == bytes@[start as int]);
        }
    }
    out
}

/// `payload` as a 32-byte big-endian number, if it has no leading zero and
/// at most 32 bytes.
pub fn pad_to_32(payload: &[u8]) -> (r: Option<[u8; 32]>)
    ensures
        match r {
            Some(b) => b@ == pad_zeros(payload@, 32) && no_leading_zero(payload@)
                && payload@.len() <= 32,
            None => payload@.len() > 32 || !no_leading_zero(payload@),
        },
{
    if payload.len() > 32 {
        return None;
    }
    if payload.len() > 0 && payload[0] == 0 {
        return None;
    }
    let mut out = [0u8; 32];
    let gap: usize = 32 - payload.len();
    let mut i: usize = 0;
    while i < payload.len()
        invariant
            i <= payload@.len() <= 32,
            gap == 32 - payload@.len(),
            forall|j: int| 0 <= j < gap ==> out@[j] == 0,
            forall|j: int| 0 <= j < i ==> out@[gap + j] == payload@[j],
        decreases payload@.len() - i,
    {
        out[gap + i] = payload[i];
        i += 1;
    }
    assert(out@ =~= pad_zeros(payload@, 32));
    Some(out)
}

} // verus!
