//! The record format: a little-endian header of checksum, key length and
//! value length, followed by the key bytes and the value bytes.
use byteorder::{ByteOrder, LittleEndian};
use vstd::prelude::*;
use vstd::slice::{slice_subrange, slice_to_vec};

verus! {

/// Size in bytes of a record header: checksum, key length, value length.
pub const HEADER_LEN: usize = 12;

/// The CRC-32 (IEEE polynomial) of a byte sequence.
pub uninterp spec fn crc32_of(bytes: Seq<u8>) -> u32;

/// The value of four bytes read as a little-endian unsigned integer.
pub open spec fn le_u32(b: Seq<u8>) -> int {
    b[0] + 256 * b[1] + 65536 * b[2] + 16777216 * b[3]
}

/// The four bytes of `n`, least significant first.
pub open spec fn le_bytes(n: u32) -> Seq<u8> {
    seq![
        (n % 256) as u8,
        ((n / 256) % 256) as u8,
        ((n / 65536) % 256) as u8,
        (n / 16777216) as u8,
    ]
}

/// Writing a number as four little-endian bytes and reading them back gives it again.
pub proof fn lemma_le_round_trip(n: u32)
    ensures
        le_bytes(n).len() == 4,
        le_u32(le_bytes(n)) == n,
{
    assert((n % 256) + 256 * ((n / 256) % 256) + 65536 * ((n / 65536) % 256) + 16777216 * (n
        / 16777216) == n) by (bit_vector);
}

/// The bytes that encode one record of `key` and `value`.
pub open spec fn encoding(key: Seq<u8>, value: Seq<u8>) -> Seq<u8> {
    le_bytes(crc32_of(key + value)) + le_bytes(key.len() as u32) + le_bytes(value.len() as u32)
        + key + value
}

/// A key and its value, as stored in one record.
#[derive(Debug, Clone, PartialEq, Eq)]
pub struct KeyValuePair {
    pub key: Vec<u8>,
    pub value: Vec<u8>,
}

/// What reading one record at an offset of a log yields, over plain sequences.
pub enum RecordAt {
    /// A complete record whose checksum matches; `next` is the offset just past it.
    Record { key: Seq<u8>, value: Seq<u8>, next: int },
    /// Too few bytes remain for a header, or for the payload that the header announces.
    EndOfLog,
    /// A complete record whose stored checksum differs from the one computed over its payload.
    Corrupt { stored: u32, computed: u32 },
}

/// The little-endian number in the four bytes of `log` at `at`.
pub open spec fn field_at(log: Seq<u8>, at: int) -> int {
    le_u32(log.subrange(at, at + 4))
}

/// The offset just past the record whose header starts at `pos`.
pub open spec fn record_end(log: Seq<u8>, pos: int) -> int {
    pos + 12 + field_at(log, pos + 4) + field_at(log, pos + 8)
}

/// What a reader finds at offset `pos` of `log`.
pub open spec fn record_at(log: Seq<u8>, pos: int) -> RecordAt {
    if pos + 12 > log.len() || record_end(log, pos) > log.len() {
        RecordAt::EndOfLog
    } else {
        let key_end = pos + 12 + field_at(log, pos + 4);
        let payload = log.subrange(pos + 12, record_end(log, pos));
        if crc32_of(payload) != field_at(log, pos) {
            RecordAt::Corrupt { stored: field_at(log, pos) as u32, computed: crc32_of(payload) }
        } else {
            RecordAt::Record {
                key: log.subrange(pos + 12, key_end),
                value: log.subrange(key_end, record_end(log, pos)),
                next: record_end(log, pos),
            }
        }
    }
}

/// The outcome of decoding one record.
#[derive(Debug)]
pub enum Decoded {
    Record { record: KeyValuePair, next: usize },
    EndOfLog,
    Corrupt { stored: u32, computed: u32 },
}

impl View for Decoded {
    type V = RecordAt;

    open spec fn view(&self) -> RecordAt {
        match self {
            Decoded::Record { record, next } => RecordAt::Record {
                key: record.key@,
                value: record.value@,
                next: *next as int,
            },
            Decoded::EndOfLog => RecordAt::EndOfLog,
            Decoded::Corrupt { stored, computed } => RecordAt::Corrupt {
                stored: *stored,
                computed: *computed,
            },
        }
    }
}

/// Relies on crc::crc32::checksum_ieee: the CRC-32 of the bytes, which depends on them alone.
#[verifier::external_body]
fn crc32_ieee(bytes: &[u8]) -> (r: u32)
    ensures
        r == crc32_of(bytes@),
{
    crc::crc32::checksum_ieee(bytes)
}

/// Relies on byteorder's LittleEndian::read_u32: the first four bytes as a little-endian number.
#[verifier::external_body]
fn read_u32_le(buf: &[u8]) -> (r: u32)
    requires
        buf@.len() >= 4,
    ensures
        r == le_u32(buf@),
{
    LittleEndian::read_u32(buf)
}

/// Relies on byteorder's LittleEndian::write_u32: `n` stored as four little-endian bytes.
#[verifier::external_body]
fn write_u32_le(out: &mut Vec<u8>, n: u32)
    ensures
        final(out)@ == old(out)@ + le_bytes(n),
{
    let mut buf = [0u8; 4];
    LittleEndian::write_u32(&mut buf, n);
    out.extend_from_slice(&buf);
}

/// Encodes one record: checksum of `key ++ value`, the two lengths, then the payload.
pub fn encode(key: &[u8], value: &[u8]) -> (r: Vec<u8>)
    requires
        key@.len() <= u32::MAX,
        value@.len() <= u32::MAX,
    ensures
        r@ == encoding(key@, value@),
{
    let mut payload: Vec<u8> = slice_to_vec(key);
    payload.extend_from_slice(value);
    assert(payload@ =~= key@ + value@);
    let checksum = crc32_ieee(payload.as_slice());
    let mut out: Vec<u8> = Vec::new();
    write_u32_le(&mut out, checksum);
    write_u32_le(&mut out, key.len() as u32);
    write_u32_le(&mut out, value.len() as u32);
    out.append(&mut payload);
    assert(out@ =~= encoding(key@, value@));
    out
}

/// Decodes the record whose header starts at `pos` of `log`.
pub fn decode(log: &[u8], pos: usize) -> (r: Decoded)
    requires
        pos <= log@.len(),
    ensures
        r@ == record_at(log@, pos as int),
{
    let avail: usize = log.len() - pos;
    if avail < HEADER_LEN {
        return Decoded::EndOfLog;
    }
    let stored = read_u32_le(slice_subrange(log, pos, pos + 4));
    let key_len = read_u32_le(slice_subrange(log, pos + 4, pos + 8));
    let value_len = read_u32_le(slice_subrange(log, pos + 8, pos + 12));
    if key_len as u64 + value_len as u64 > (avail - HEADER_LEN) as u64 {
        return Decoded::EndOfLog;
    }
    let key_end: usize = pos + HEADER_LEN + key_len as usize;
    let end: usize = key_end + value_len as usize;
    let payload = slice_subrange(log, pos + HEADER_LEN, end);
    let computed = crc32_ieee(payload);
    if computed != stored {
        return Decoded::Corrupt { stored, computed };
    }
    let key = slice_to_vec(slice_subrange(log, pos + HEADER_LEN, key_end));
    let value = slice_to_vec(slice_subrange(log, key_end, end));
    Decoded::Record { record: KeyValuePair { key, value }, next: end }
}

/// Decoding the encoding of a record gives back its key and value.
pub proof fn lemma_round_trip(key: Seq<u8>, value: Seq<u8>)
    requires
        key.len() <= u32::MAX,
        value.len() <= u32::MAX,
    ensures
        record_at(encoding(key, value), 0) == (RecordAt::Record {
            key,
            value,
            next: encoding(key, value).len() as int,
        }),
{
    let e = encoding(key, value);
    let c = crc32_of(key + value);
    lemma_le_round_trip(c);
    lemma_le_round_trip(key.len() as u32);
    lemma_le_round_trip(value.len() as u32);
    assert(e.subrange(0, 4) =~= le_bytes(c));
    assert(e.subrange(4, 8) =~= le_bytes(key.len() as u32));
    assert(e.subrange(8, 12) =~= le_bytes(value.len() as u32));
    assert(e.subrange(12, e.len() as int) =~= key + value);
    assert(e.subrange(12, 12 + key.len() as int) =~= key);
    assert(e.subrange(12 + key.len() as int, e.len() as int) =~= value);
}

/// Changing one payload byte of an encoded record so that the payload's
/// checksum changes makes the record read back as corrupt, with the stored
/// and the recomputed checksum.
pub proof fn lemma_corruption_detected(key: Seq<u8>, value: Seq<u8>, i: int, b: u8)
    requires
        key.len() <= u32::MAX,
        value.len() <= u32::MAX,
        0 <= i < key.len() + value.len(),
        crc32_of((key + value).update(i, b)) != crc32_of(key + value),
    ensures
        record_at(encoding(key, value).update(12 + i, b), 0) == (RecordAt::Corrupt {
            stored: crc32_of(key + value),
            computed: crc32_of((key + value).update(i, b)),
        }),
{
    let e = encoding(key, value);
    let m = e.update(12 + i, b);
    lemma_round_trip(key, value);
    assert(m.subrange(0, 4) =~= e.subrange(0, 4));
    assert(m.subrange(4, 8) =~= e.subrange(4, 8));
    assert(m.subrange(8, 12) =~= e.subrange(8, 12));
    assert(e.subrange(12, e.len() as int) =~= key + value);
    assert(m.subrange(12, m.len() as int) =~= (key + value).update(i, b));
}

} // verus!
