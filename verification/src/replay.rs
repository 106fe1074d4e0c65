//! Replay: rebuilding the index by reading every record from the start.

use vstd::prelude::*;

use crate::checksum::crc32_of;
use crate::record::{
    key_at, lemma_append_preserves_record, lemma_record_round_trip, record_bytes,
    record_complete, record_end, record_ok, value_at,
};

verus! {

/// Replaying from `pos` reaches a clean end of the log: every record parses
/// with a matching checksum and the last one ends exactly at the log's end.
pub open spec fn replay_ok(log: Seq<u8>, pos: int) -> bool
    decreases log.len() - pos,
{
    if pos >= log.len() {
        true
    } else if record_ok(log, pos) {
        replay_ok(log, record_end(log, pos))
    } else {
        false
    }
}

/// The index built by replaying from `pos` on top of `acc`: each record met
/// overwrites the entry for its key with the record's starting offset.
pub open spec fn replay_map(log: Seq<u8>, pos: int, acc: Map<Seq<u8>, int>) -> Map<Seq<u8>, int>
    decreases log.len() - pos,
{
    if pos >= log.len() || !record_ok(log, pos) {
        acc
    } else {
        replay_map(log, record_end(log, pos), acc.insert(key_at(log, pos), pos))
    }
}

/// When replay fails, whether the first offending record is complete but has
/// a mismatched checksum (corruption) rather than cut short (truncation).
pub open spec fn replay_corrupt(log: Seq<u8>, pos: int) -> bool
    decreases log.len() - pos,
{
    if pos >= log.len() {
        false
    } else if record_ok(log, pos) {
        replay_corrupt(log, record_end(log, pos))
    } else {
        record_complete(log, pos)
    }
}

/// The offset of the last well-formed record for `target` found by scanning
/// every record from `pos`, independent of any index.
pub open spec fn scan_last(log: Seq<u8>, pos: int, target: Seq<u8>) -> Option<int>
    decreases log.len() - pos,
{
    if pos >= log.len() || !record_ok(log, pos) {
        None
    } else {
        let rest = scan_last(log, record_end(log, pos), target);
        if rest is Some {
            rest
        } else if key_at(log, pos) == target {
            Some(pos)
        } else {
            None
        }
    }
}

/// Append-only durability and replay equivalence, one write at a time:
/// appending the record for `(key, value)` to a log that replays cleanly
/// leaves every prior byte in place, still replays cleanly, and extends the
/// replayed index by exactly `key -> old end of log`.
pub proof fn lemma_replay_append(
    log: Seq<u8>,
    pos: int,
    acc: Map<Seq<u8>, int>,
    key: Seq<u8>,
    value: Seq<u8>,
)
    requires
        0 <= pos <= log.len(),
        replay_ok(log, pos),
        key.len() <= u32::MAX,
        value.len() <= u32::MAX,
    ensures
        replay_ok(log + record_bytes(key, value), pos),
        replay_map(log + record_bytes(key, value), pos, acc) == replay_map(log, pos, acc).insert(
            key,
            log.len() as int,
        ),
    decreases log.len() - pos,
{
    let rec = record_bytes(key, value);
    let log2 = log + rec;
    if pos == log.len() {
        lemma_record_round_trip(log, key, value);
        assert(record_end(log2, pos) == log2.len());
        assert(key_at(log2, pos) == key);
        assert(replay_ok(log2, log2.len() as int));
        assert(replay_map(log2, log2.len() as int, acc.insert(key, pos)) == acc.insert(key, pos));
        assert(replay_map(log2, pos, acc) == acc.insert(key, pos));
    } else {
        assert(record_ok(log, pos));
        lemma_append_preserves_record(log, rec, pos);
        lemma_replay_append(log, record_end(log, pos), acc.insert(key_at(log, pos), pos), key,
            value);
    }
}

/// Last write wins: after writing `v1` and then `v2` under the same key,
/// replay resolves the key to the offset of the `v2` record, and the value
/// stored at that offset is `v2`.
pub proof fn lemma_replay_last_write_wins(log: Seq<u8>, key: Seq<u8>, v1: Seq<u8>, v2: Seq<u8>)
    requires
        replay_ok(log, 0),
        key.len() <= u32::MAX,
        v1.len() <= u32::MAX,
        v2.len() <= u32::MAX,
    ensures
        ({
            let log1 = log + record_bytes(key, v1);
            let log2 = log1 + record_bytes(key, v2);
            &&& replay_ok(log2, 0)
            &&& replay_map(log2, 0, Map::empty()).contains_key(key)
            &&& replay_map(log2, 0, Map::empty())[key] == log1.len()
            &&& value_at(log2, log1.len() as int) == v2
        }),
{
    let log1 = log + record_bytes(key, v1);
    let log2 = log1 + record_bytes(key, v2);
    lemma_replay_append(log, 0, Map::empty(), key, v1);
    lemma_replay_append(log1, 0, Map::empty(), key, v2);
    lemma_record_round_trip(log1, key, v2);
}

/// The index invariant: every offset the replayed index holds begins a
/// well-formed record that carries exactly the key it is indexed under.
pub proof fn lemma_replay_index_well_formed(
    log: Seq<u8>,
    pos: int,
    acc: Map<Seq<u8>, int>,
    k: Seq<u8>,
)
    requires
        0 <= pos,
        acc.contains_key(k) ==> record_ok(log, acc[k]) && key_at(log, acc[k]) == k,
    ensures
        ({
            let m = replay_map(log, pos, acc);
            m.contains_key(k) ==> record_ok(log, m[k]) && key_at(log, m[k]) == k
        }),
    decreases log.len() - pos,
{
    if pos >= log.len() || !record_ok(log, pos) {
    } else {
        lemma_replay_index_well_formed(
            log,
            record_end(log, pos),
            acc.insert(key_at(log, pos), pos),
            k,
        );
    }
}

/// Replay equivalence: the index built by replay agrees, for every key, with
/// a full scan of the log that keeps the offset of the key's last occurrence.
pub proof fn lemma_replay_matches_scan(
    log: Seq<u8>,
    pos: int,
    acc: Map<Seq<u8>, int>,
    target: Seq<u8>,
)
    requires
        0 <= pos,
        replay_ok(log, pos),
    ensures
        ({
            let m = replay_map(log, pos, acc);
            match scan_last(log, pos, target) {
                Some(p) => m.contains_key(target) && m[target] == p,
                None => m.contains_key(target) == acc.contains_key(target) && (acc.contains_key(
                    target,
                ) ==> m[target] == acc[target]),
            }
        }),
    decreases log.len() - pos,
{
    if pos >= log.len() {
    } else {
        let next = record_end(log, pos);
        let acc2 = acc.insert(key_at(log, pos), pos);
        lemma_replay_matches_scan(log, next, acc2, target);
    }
}

} // verus!
