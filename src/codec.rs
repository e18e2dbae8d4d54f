//! The record format: `checksum || key_len || value_len || key || value`,
//! every integer a little-endian `u32`, the checksum a CRC-32 (IEEE) over
//! `key ++ value`.

use vstd::prelude::*;
use vstd::slice::{slice_subrange, slice_to_vec};

verus! {

/// Length of the fixed header in front of every record.
pub const HEADER_LEN: usize = 12;

/// What `crc::crc32::checksum_ieee` returns on the given bytes.
pub uninterp spec fn crc32_ieee(data: Seq<u8>) -> u32;

/// Relies on `crc::crc32::checksum_ieee`: a CRC-32 (IEEE) computed from the
/// bytes alone.
#[verifier::external_body]
pub(crate) fn checksum(data: &[u8]) -> (r: u32)
    ensures
        r == crc32_ieee(data@),
{
    crc::crc32::checksum_ieee(data)
}

/// The four little-endian bytes of `n`.
pub open spec fn le_bytes(n: u32) -> Seq<u8> {
    seq![(n % 256) as u8, ((n / 256) % 256) as u8, ((n / 65536) % 256) as u8, (n / 16777216) as u8]
}

/// The little-endian `u32` stored in `s[p..p + 4]`.
pub open spec fn u32_at(s: Seq<u8>, p: int) -> u32 {
    (s[p] as int + 256 * s[p + 1] as int + 65536 * s[p + 2] as int + 16777216 * s[p + 3] as int) as u32
}

/// The bytes of one record holding `key` and `value`.
pub open spec fn record_bytes(key: Seq<u8>, value: Seq<u8>) -> Seq<u8> {
    le_bytes(crc32_ieee(key + value)) + le_bytes(key.len() as u32) + le_bytes(value.len() as u32)
        + key + value
}

/// Why no record could be read at an offset.
#[derive(Debug, Clone, Copy, PartialEq, Eq, Structural)]
pub enum RecordError {
    /// The bytes end before the header or the payload is complete.
    Truncated,
    /// The stored checksum differs from the checksum of the payload.
    Corruption,
}

/// One decoded record.
#[derive(Debug, PartialEq, Eq)]
pub struct KeyValuePair {
    pub key: Vec<u8>,
    pub value: Vec<u8>,
}

/// Length of the key of the record whose header starts at `p`.
pub open spec fn key_len_at(s: Seq<u8>, p: int) -> int {
    u32_at(s, p + 4) as int
}

/// Length of the value of the record whose header starts at `p`.
pub open spec fn value_len_at(s: Seq<u8>, p: int) -> int {
    u32_at(s, p + 8) as int
}

/// Offset just past the record whose header starts at `p`.
pub open spec fn record_end(s: Seq<u8>, p: int) -> int {
    p + HEADER_LEN + key_len_at(s, p) + value_len_at(s, p)
}

/// The record that starts at offset `p` of `s`, as key and value.
pub open spec fn parse(s: Seq<u8>, p: int) -> Result<(Seq<u8>, Seq<u8>), RecordError> {
    if p < 0 || p + HEADER_LEN > s.len() || record_end(s, p) > s.len() {
        Err(RecordError::Truncated)
    } else {
        let payload = s.subrange(p + HEADER_LEN, record_end(s, p));
        if crc32_ieee(payload) != u32_at(s, p) {
            Err(RecordError::Corruption)
        } else {
            let k = key_len_at(s, p);
            Ok((payload.subrange(0, k), payload.subrange(k, payload.len() as int)))
        }
    }
}

proof fn lemma_le_bytes_round_trip(n: u32)
    ensures
        u32_at(le_bytes(n), 0) == n,
{
    assert(n as int == n % 256 + 256 * ((n / 256) % 256) + 65536 * ((n / 65536) % 256) + 16777216 * (
    n / 16777216)) by (nonlinear_arith);
}

/// The `u32` stored at `p` does not change when bytes are added around it.
proof fn lemma_u32_at_frame(s: Seq<u8>, t: Seq<u8>, p: int, q: int)
    requires
        0 <= p,
        p + 4 <= s.len(),
        0 <= q,
        q + 4 <= t.len(),
        s.subrange(p, p + 4) == t.subrange(q, q + 4),
    ensures
        u32_at(s, p) == u32_at(t, q),
{
    let a = s.subrange(p, p + 4);
    let b = t.subrange(q, q + 4);
    assert(s[p] == a[0] && a[0] == b[0] && b[0] == t[q]);
    assert(s[p + 1] == a[1] && a[1] == b[1] && b[1] == t[q + 1]);
    assert(s[p + 2] == a[2] && a[2] == b[2] && b[2] == t[q + 2]);
    assert(s[p + 3] == a[3] && a[3] == b[3] && b[3] == t[q + 3]);
}

/// A record that reads correctly still does after bytes are appended.
pub proof fn lemma_parse_extend(s: Seq<u8>, extra: Seq<u8>, p: int)
    requires
        0 <= p,
        p + HEADER_LEN <= s.len(),
        record_end(s, p) <= s.len(),
    ensures
        parse(s + extra, p) == parse(s, p),
        record_end(s + extra, p) == record_end(s, p),
{
    let t = s + extra;
    assert(s.subrange(p, p + 4) =~= t.subrange(p, p + 4));
    assert(s.subrange(p + 4, p + 8) =~= t.subrange(p + 4, p + 8));
    assert(s.subrange(p + 8, p + 12) =~= t.subrange(p + 8, p + 12));
    lemma_u32_at_frame(s, t, p, p);
    lemma_u32_at_frame(s, t, p + 4, p + 4);
    lemma_u32_at_frame(s, t, p + 8, p + 8);
    assert(t.subrange(p + HEADER_LEN, record_end(s, p)) =~= s.subrange(p + HEADER_LEN, record_end(s, p)));
}

/// A record appended to any bytes reads back as the key and value written.
pub proof fn lemma_parse_record(s: Seq<u8>, key: Seq<u8>, value: Seq<u8>)
    requires
        key.len() <= u32::MAX,
        value.len() <= u32::MAX,
    ensures
        parse(s + record_bytes(key, value), s.len() as int) == Ok::<(Seq<u8>, Seq<u8>), RecordError>((key, value)),
        record_end(s + record_bytes(key, value), s.len() as int) == s.len() + record_bytes(key, value).len(),
        record_bytes(key, value).len() == HEADER_LEN + key.len() + value.len(),
{
    let r = record_bytes(key, value);
    let t = s + r;
    let p = s.len() as int;
    let c = crc32_ieee(key + value);
    let kl = key.len() as u32;
    let vl = value.len() as u32;
    lemma_le_bytes_round_trip(c);
    lemma_le_bytes_round_trip(kl);
    lemma_le_bytes_round_trip(vl);
    assert(r.len() == HEADER_LEN + key.len() + value.len());
    assert(t.len() == p + r.len());
    assert(le_bytes(c).subrange(0, 4) =~= t.subrange(p, p + 4));
    assert(le_bytes(kl).subrange(0, 4) =~= t.subrange(p + 4, p + 8));
    assert(le_bytes(vl).subrange(0, 4) =~= t.subrange(p + 8, p + 12));
    lemma_u32_at_frame(le_bytes(c), t, 0, p);
    lemma_u32_at_frame(le_bytes(kl), t, 0, p + 4);
    lemma_u32_at_frame(le_bytes(vl), t, 0, p + 8);
    assert(u32_at(t, p) == c);
    assert(key_len_at(t, p) == key.len());
    assert(value_len_at(t, p) == value.len());
    assert(record_end(t, p) == t.len());
    let payload = t.subrange(p + HEADER_LEN, t.len() as int);
    assert(payload =~= key + value);
    assert(payload.subrange(0, key.len() as int) =~= key);
    assert(payload.subrange(key.len() as int, payload.len() as int) =~= value);
}

/// Decoding an encoded record gives back its key and value, empty ones included.
pub proof fn lemma_round_trip(key: Seq<u8>, value: Seq<u8>)
    requires
        key.len() <= u32::MAX,
        value.len() <= u32::MAX,
    ensures
        parse(record_bytes(key, value), 0) == Ok::<(Seq<u8>, Seq<u8>), RecordError>((key, value)),
{
    lemma_parse_record(Seq::empty(), key, value);
    assert(Seq::<u8>::empty() + record_bytes(key, value) =~= record_bytes(key, value));
}

/// A record with one bit of its payload flipped reads as `Corruption`, for
/// every flip that changes the payload's checksum.
pub proof fn lemma_flipped_bit_detected(key: Seq<u8>, value: Seq<u8>, i: int, bit: u8)
    requires
        key.len() <= u32::MAX,
        value.len() <= u32::MAX,
        0 <= i < key.len() + value.len(),
        bit < 8,
        crc32_ieee((key + value).update(i, (key + value)[i] ^ (1u8 << bit))) != crc32_ieee(key + value),
    ensures
        parse(
            record_bytes(key, value).update(HEADER_LEN + i, record_bytes(key, value)[HEADER_LEN + i] ^ (1u8 << bit)),
            0,
        ) == Err::<(Seq<u8>, Seq<u8>), RecordError>(RecordError::Corruption),
{
    let s = record_bytes(key, value);
    let j = HEADER_LEN + i;
    let t = s.update(j, s[j] ^ (1u8 << bit));
    lemma_parse_record(Seq::empty(), key, value);
    assert(Seq::<u8>::empty() + s =~= s);
    assert(s.subrange(0, 4) =~= t.subrange(0, 4));
    assert(s.subrange(4, 8) =~= t.subrange(4, 8));
    assert(s.subrange(8, 12) =~= t.subrange(8, 12));
    lemma_u32_at_frame(s, t, 0, 0);
    lemma_u32_at_frame(s, t, 4, 4);
    lemma_u32_at_frame(s, t, 8, 8);
    assert(s.subrange(HEADER_LEN as int, s.len() as int) =~= key + value);
    assert(t.subrange(HEADER_LEN as int, t.len() as int) =~= (key + value).update(i, (key + value)[i] ^ (1u8 << bit)));
}

/// What a decoding result says, as key and value.
pub open spec fn decoded(r: Result<KeyValuePair, RecordError>) -> Result<(Seq<u8>, Seq<u8>), RecordError> {
    match r {
        Ok(kv) => Ok((kv.key@, kv.value@)),
        Err(e) => Err(e),
    }
}

fn push_u32_le(out: &mut Vec<u8>, n: u32)
    ensures
        final(out)@ == old(out)@ + le_bytes(n),
{
    out.push((n % 256) as u8);
    out.push(((n / 256) % 256) as u8);
    out.push(((n / 65536) % 256) as u8);
    out.push((n / 16777216) as u8);
    assert(final(out)@ =~= old(out)@ + le_bytes(n));
}

pub(crate) fn read_u32_le(s: &[u8], p: usize) -> (r: u32)
    requires
        p + 4 <= s@.len(),
    ensures
        r == u32_at(s@, p as int),
{
    let b0 = s[p] as u32;
    let b1 = s[p + 1] as u32;
    let b2 = s[p + 2] as u32;
    let b3 = s[p + 3] as u32;
    b0 + 256 * b1 + 65536 * b2 + 16777216 * b3
}

/// Encodes one record holding `key` and `value`.
pub fn encode(key: &[u8], value: &[u8]) -> (r: Vec<u8>)
    requires
        key@.len() <= u32::MAX,
        value@.len() <= u32::MAX,
    ensures
        r@ == record_bytes(key@, value@),
{
    let mut payload = slice_to_vec(key);
    let mut tail = slice_to_vec(value);
    payload.append(&mut tail);
    let sum = checksum(payload.as_slice());
    let mut out: Vec<u8> = Vec::new();
    push_u32_le(&mut out, sum);
    push_u32_le(&mut out, key.len() as u32);
    push_u32_le(&mut out, value.len() as u32);
    out.append(&mut payload);
    out
}

} // verus!
