//! Record framing: checksum + key length + value length + key + value.

use vstd::prelude::*;

use crate::checksum::{crc32, crc32_of};
use crate::codec::{
    copy_range, lemma_u32_le_round_trip, push_bytes, push_u32_le, read_u32_le, u32_from_le, u32_le,
};

verus! {

/// One decoded record: a key and the value stored under it.
#[derive(Debug)]
pub struct KeyValuePair {
    pub key: Vec<u8>,
    pub value: Vec<u8>,
}

/// How an operation on the log can fail.
///
/// `EndOfStream` is the benign signal that no further record begins at a
/// position; replay loops end on it and it is never surfaced by `load`.
/// `Truncation` means a header or payload was only partially present, as after
/// a crash mid-write. `Corruption` means a stored checksum disagrees with the
/// checksum recomputed over the payload. Failures of the underlying file
/// itself stay with the caller that performs the I/O.
#[derive(Debug, Clone, Copy, PartialEq, Eq, Structural)]
pub enum StoreError {
    EndOfStream,
    Truncation,
    Corruption,
}

/// A full 12-byte header fits at `pos`.
pub open spec fn header_complete(log: Seq<u8>, pos: int) -> bool {
    0 <= pos && pos + 12 <= log.len()
}

/// The stored checksum field of the record at `pos`.
pub open spec fn checksum_at(log: Seq<u8>, pos: int) -> u32 {
    u32_from_le(log[pos], log[pos + 1], log[pos + 2], log[pos + 3])
}

/// The stored key length field of the record at `pos`.
pub open spec fn key_len_at(log: Seq<u8>, pos: int) -> u32 {
    u32_from_le(log[pos + 4], log[pos + 5], log[pos + 6], log[pos + 7])
}

/// The stored value length field of the record at `pos`.
pub open spec fn value_len_at(log: Seq<u8>, pos: int) -> u32 {
    u32_from_le(log[pos + 8], log[pos + 9], log[pos + 10], log[pos + 11])
}

/// The position just past the record that starts at `pos`.
pub open spec fn record_end(log: Seq<u8>, pos: int) -> int {
    pos + 12 + key_len_at(log, pos) + value_len_at(log, pos)
}

/// Header and payload of the record at `pos` lie fully within the log.
pub open spec fn record_complete(log: Seq<u8>, pos: int) -> bool {
    header_complete(log, pos) && record_end(log, pos) <= log.len()
}

/// The concatenated key and value bytes of the record at `pos`.
pub open spec fn payload_at(log: Seq<u8>, pos: int) -> Seq<u8> {
    log.subrange(pos + 12, record_end(log, pos))
}

/// The key bytes of the record at `pos`.
pub open spec fn key_at(log: Seq<u8>, pos: int) -> Seq<u8> {
    log.subrange(pos + 12, pos + 12 + key_len_at(log, pos))
}

/// The value bytes of the record at `pos`.
pub open spec fn value_at(log: Seq<u8>, pos: int) -> Seq<u8> {
    log.subrange(pos + 12 + key_len_at(log, pos), record_end(log, pos))
}

/// The record at `pos` is complete and its stored checksum matches its payload.
pub open spec fn record_ok(log: Seq<u8>, pos: int) -> bool {
    record_complete(log, pos) && checksum_at(log, pos) == crc32_of(payload_at(log, pos))
}

/// The exact bytes that a write of `(key, value)` appends to the log.
pub open spec fn record_bytes(key: Seq<u8>, value: Seq<u8>) -> Seq<u8> {
    u32_le(crc32_of(key + value)) + u32_le(key.len() as u32) + u32_le(value.len() as u32) + key
        + value
}

/// Parses exactly one record starting at `position`.
///
/// Returns `EndOfStream` when no byte is available where a fresh header would
/// start, `Truncation` when the header or payload is only partially present,
/// `Corruption` when the stored checksum disagrees with the recomputed one,
/// and the decoded key and value otherwise.
pub fn process_record(log: &Vec<u8>, position: usize) -> (r: Result<KeyValuePair, StoreError>)
    ensures
        position >= log@.len() ==> r == Err::<KeyValuePair, StoreError>(StoreError::EndOfStream),
        position < log@.len() && !record_complete(log@, position as int) ==> r == Err::<
            KeyValuePair,
            StoreError,
        >(StoreError::Truncation),
        record_complete(log@, position as int) && checksum_at(log@, position as int) != crc32_of(
            payload_at(log@, position as int),
        ) ==> r == Err::<KeyValuePair, StoreError>(StoreError::Corruption),
        record_ok(log@, position as int) ==> (r matches Ok(kv) && kv.key@ == key_at(
            log@,
            position as int,
        ) && kv.value@ == value_at(log@, position as int)),
{
    let len = log.len();
    if position >= len {
        return Err(StoreError::EndOfStream);
    }
    if len - position < 12 {
        return Err(StoreError::Truncation);
    }
    let checksum = read_u32_le(log, position);
    let key_len = read_u32_le(log, position + 4);
    let value_len = read_u32_le(log, position + 8);
    let body_avail: u64 = (len - position - 12) as u64;
    let data_len: u64 = key_len as u64 + value_len as u64;
    if data_len > body_avail {
        return Err(StoreError::Truncation);
    }
    let data_start = position + 12;
    let key_end = data_start + key_len as usize;
    let rec_end = key_end + value_len as usize;
    assert(rec_end == record_end(log@, position as int));
    let payload = copy_range(log, data_start, rec_end);
    let computed = crc32(payload.as_slice());
    if checksum != computed {
        return Err(StoreError::Corruption);
    }
    let key = copy_range(log, data_start, key_end);
    let value = copy_range(log, key_end, rec_end);
    Ok(KeyValuePair { key, value })
}

/// Appends the framed record for `(key, value)` to the log.
pub fn append_record(log: &mut Vec<u8>, key: &[u8], value: &[u8])
    requires
        key@.len() <= u32::MAX,
        value@.len() <= u32::MAX,
        old(log)@.len() + 12 + key@.len() + value@.len() <= usize::MAX,
    ensures
        final(log)@ == old(log)@ + record_bytes(key@, value@),
{
    let key_len = key.len();
    let value_len = value.len();
    let mut payload: Vec<u8> = Vec::new();
    push_bytes(&mut payload, key);
    push_bytes(&mut payload, value);
    let checksum = crc32(payload.as_slice());
    push_u32_le(log, checksum);
    push_u32_le(log, key_len as u32);
    push_u32_le(log, value_len as u32);
    push_bytes(log, payload.as_slice());
    assert(final(log)@ =~= old(log)@ + record_bytes(key@, value@));
}

/// Round trip: the record written for `(key, value)` at the end of the log
/// parses back as exactly that key and value, and its checksum matches.
/// Hence an `insert` followed by a `get` of the same key returns the value
/// just written.
pub proof fn lemma_record_round_trip(log: Seq<u8>, key: Seq<u8>, value: Seq<u8>)
    requires
        key.len() <= u32::MAX,
        value.len() <= u32::MAX,
    ensures
        record_bytes(key, value).len() == 12 + key.len() + value.len(),
        record_ok(log + record_bytes(key, value), log.len() as int),
        key_len_at(log + record_bytes(key, value), log.len() as int) == key.len(),
        value_len_at(log + record_bytes(key, value), log.len() as int) == value.len(),
        record_end(log + record_bytes(key, value), log.len() as int) == log.len()
            + record_bytes(key, value).len(),
        key_at(log + record_bytes(key, value), log.len() as int) == key,
        value_at(log + record_bytes(key, value), log.len() as int) == value,
        payload_at(log + record_bytes(key, value), log.len() as int) == key + value,
{
    let rec = record_bytes(key, value);
    let log2 = log + rec;
    let pos = log.len() as int;
    let crc = crc32_of(key + value);
    assert(rec.len() == 12 + key.len() + value.len());
    assert forall|i: int| 0 <= i < rec.len() implies log2[pos + i] == rec[i] by {}
    assert(checksum_at(log2, pos) == u32_from_le(
        u32_le(crc)[0],
        u32_le(crc)[1],
        u32_le(crc)[2],
        u32_le(crc)[3],
    ));
    lemma_u32_le_round_trip(crc);
    assert(key_len_at(log2, pos) == u32_from_le(
        u32_le(key.len() as u32)[0],
        u32_le(key.len() as u32)[1],
        u32_le(key.len() as u32)[2],
        u32_le(key.len() as u32)[3],
    ));
    lemma_u32_le_round_trip(key.len() as u32);
    lemma_u32_le_round_trip(value.len() as u32);
    assert(value_len_at(log2, pos) == u32_from_le(
        u32_le(value.len() as u32)[0],
        u32_le(value.len() as u32)[1],
        u32_le(value.len() as u32)[2],
        u32_le(value.len() as u32)[3],
    ));
    assert(record_end(log2, pos) == log2.len());
    assert(key_at(log2, pos) =~= key);
    assert(value_at(log2, pos) =~= value);
    assert(payload_at(log2, pos) =~= key + value);
}

/// Appending bytes after a complete record changes nothing about how that
/// record parses.
pub proof fn lemma_append_preserves_record(log: Seq<u8>, suffix: Seq<u8>, pos: int)
    requires
        record_complete(log, pos),
    ensures
        record_complete(log + suffix, pos),
        checksum_at(log + suffix, pos) == checksum_at(log, pos),
        key_len_at(log + suffix, pos) == key_len_at(log, pos),
        value_len_at(log + suffix, pos) == value_len_at(log, pos),
        record_end(log + suffix, pos) == record_end(log, pos),
        payload_at(log + suffix, pos) == payload_at(log, pos),
        key_at(log + suffix, pos) == key_at(log, pos),
        value_at(log + suffix, pos) == value_at(log, pos),
        record_ok(log + suffix, pos) == record_ok(log, pos),
{
    let log2 = log + suffix;
    assert forall|i: int| 0 <= i < log.len() implies log2[i] == log[i] by {}
    assert(checksum_at(log2, pos) == checksum_at(log, pos));
    assert(key_len_at(log2, pos) == key_len_at(log, pos));
    assert(value_len_at(log2, pos) == value_len_at(log, pos));
    assert(payload_at(log2, pos) =~= payload_at(log, pos));
    assert(key_at(log2, pos) =~= key_at(log, pos));
    assert(value_at(log2, pos) =~= value_at(log, pos));
}

} // verus!
