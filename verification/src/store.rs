//! The log-structured store: a byte log plus the in-memory index over it.

use vstd::prelude::*;

use crate::codec::{bytes_eq, copy_range, push_bytes};
use crate::checksum::crc32_of;
use crate::record::{
    append_record, checksum_at, key_at, key_len_at, lemma_append_preserves_record,
    lemma_record_round_trip, payload_at, process_record, record_bytes, record_complete, record_ok,
    value_at, KeyValuePair, StoreError,
};
use crate::replay::{replay_corrupt, replay_map, replay_ok, scan_last};

verus! {

/// One index entry: a key and the offset of its most recent record.
struct IndexEntry {
    key: Vec<u8>,
    position: usize,
}

/// The mapping that a sequence of index entries stands for; a later entry for
/// a key overwrites an earlier one.
spec fn assoc_map(entries: Seq<IndexEntry>) -> Map<Seq<u8>, int>
    decreases entries.len(),
{
    if entries.len() == 0 {
        Map::empty()
    } else {
        assoc_map(entries.drop_last()).insert(
            entries.last().key@,
            entries.last().position as int,
        )
    }
}

/// No two entries carry the same key.
spec fn entries_unique(entries: Seq<IndexEntry>) -> bool {
    forall|i: int, j: int|
        0 <= i < j < entries.len() ==> (#[trigger] entries[i]).key@ != (#[trigger] entries[j]).key@
}

/// An entry's key maps to that entry's position.
proof fn lemma_assoc_map_entry(entries: Seq<IndexEntry>, i: int)
    requires
        entries_unique(entries),
        0 <= i < entries.len(),
    ensures
        assoc_map(entries).contains_key(entries[i].key@),
        assoc_map(entries)[entries[i].key@] == entries[i].position as int,
    decreases entries.len(),
{
    let n = entries.len() as int;
    if i < n - 1 {
        assert(entries.drop_last()[i] == entries[i]);
        lemma_assoc_map_entry(entries.drop_last(), i);
        assert(entries[i].key@ != entries.last().key@);
    }
}

/// A key carried by no entry is absent from the mapping.
proof fn lemma_assoc_map_absent(entries: Seq<IndexEntry>, k: Seq<u8>)
    requires
        forall|i: int| 0 <= i < entries.len() ==> (#[trigger] entries[i]).key@ != k,
    ensures
        !assoc_map(entries).contains_key(k),
    decreases entries.len(),
{
    if entries.len() > 0 {
        assert forall|i: int| 0 <= i < entries.drop_last().len() implies (#[trigger] entries
            .drop_last()[i]).key@ != k by {
            assert(entries.drop_last()[i] == entries[i]);
        }
        lemma_assoc_map_absent(entries.drop_last(), k);
    }
}

/// Replacing the entry that already carries `e`'s key updates the mapping at
/// exactly that key.
proof fn lemma_assoc_map_update(entries: Seq<IndexEntry>, i: int, e: IndexEntry)
    requires
        entries_unique(entries),
        0 <= i < entries.len(),
        e.key@ == entries[i].key@,
    ensures
        assoc_map(entries.update(i, e)) == assoc_map(entries).insert(e.key@, e.position as int),
    decreases entries.len(),
{
    let n = entries.len() as int;
    let up = entries.update(i, e);
    if i == n - 1 {
        assert(up.drop_last() =~= entries.drop_last());
        assert(up.last() == e);
        assert(assoc_map(entries.drop_last()).insert(
            entries.last().key@,
            entries.last().position as int,
        ).insert(e.key@, e.position as int) =~= assoc_map(entries.drop_last()).insert(
            e.key@,
            e.position as int,
        ));
    } else {
        assert forall|a: int, b: int| 0 <= a < b < entries.drop_last().len() implies (
        #[trigger] entries.drop_last()[a]).key@ != (#[trigger] entries.drop_last()[b]).key@ by {
            assert(entries.drop_last()[a] == entries[a]);
            assert(entries.drop_last()[b] == entries[b]);
        }
        assert(entries.drop_last()[i] == entries[i]);
        lemma_assoc_map_update(entries.drop_last(), i, e);
        assert(up.drop_last() =~= entries.drop_last().update(i, e));
        assert(up.last() == entries.last());
        assert(entries[i].key@ != entries.last().key@);
        assert(assoc_map(entries.drop_last()).insert(e.key@, e.position as int).insert(
            entries.last().key@,
            entries.last().position as int,
        ) =~= assoc_map(entries.drop_last()).insert(
            entries.last().key@,
            entries.last().position as int,
        ).insert(e.key@, e.position as int));
    }
}

/// Finds the entry holding `key`, if any.
fn index_find(entries: &Vec<IndexEntry>, key: &[u8]) -> (r: Option<usize>)
    ensures
        match r {
            Some(i) => i < entries@.len() && entries@[i as int].key@ == key@,
            None => forall|j: int| 0 <= j < entries@.len() ==> (#[trigger] entries@[j]).key@ != key@,
        },
{
    let n = entries.len();
    let mut i: usize = 0;
    while i < n
        invariant
            i <= n,
            n == entries@.len(),
            forall|j: int| 0 <= j < i ==> (#[trigger] entries@[j]).key@ != key@,
        decreases n - i,
    {
        if bytes_eq(entries[i].key.as_slice(), key) {
            return Some(i);
        }
        i = i + 1;
    }
    None
}

/// Sets `key` to `position`, replacing the key's entry or adding one.
fn index_upsert(entries: &mut Vec<IndexEntry>, key: &[u8], position: usize)
    requires
        entries_unique(old(entries)@),
    ensures
        entries_unique(final(entries)@),
        assoc_map(final(entries)@) == assoc_map(old(entries)@).insert(key@, position as int),
        forall|i: int|
            0 <= i < final(entries)@.len() ==> (exists|j: int|
                0 <= j < old(entries)@.len() && final(entries)@[i] == old(entries)@[j]) || ((
            #[trigger] final(entries)@[i]).key@ == key@ && final(entries)@[i].position == position),
{
    let found = index_find(entries, key);
    let key_len = key.len();
    let mut key_copy: Vec<u8> = Vec::new();
    push_bytes(&mut key_copy, key);
    let e = IndexEntry { key: key_copy, position };
    match found {
        Some(i) => {
            proof {
                lemma_assoc_map_update(entries@, i as int, e);
            }
            entries.set(i, e);
            assert forall|a: int, b: int| 0 <= a < b < final(entries)@.len() implies (
            #[trigger] final(entries)@[a]).key@ != (#[trigger] final(entries)@[b]).key@ by {
                assert(old(entries)@[a].key@ != old(entries)@[b].key@);
            }
        },
        None => {
            proof {
                lemma_assoc_map_absent(entries@, key@);
            }
            entries.push(e);
            assert(final(entries)@.drop_last() =~= old(entries)@);
            assert(final(entries)@.last() == e);
            assert(assoc_map(final(entries)@) == assoc_map(old(entries)@).insert(
                key@,
                position as int,
            ));
        },
    }
}

/// The append-only key-value store: the byte image of its backing file and
/// the in-memory index mapping each key to the offset of its latest record.
pub struct ActionKV {
    log: Vec<u8>,
    index: Vec<IndexEntry>,
}

impl ActionKV {
    /// The full byte image of the backing file.
    pub closed spec fn log_view(self) -> Seq<u8> {
        self.log@
    }

    /// The index as a mapping from key bytes to record offsets.
    pub closed spec fn index_view(self) -> Map<Seq<u8>, int> {
        assoc_map(self.index@)
    }

    #[verifier::type_invariant]
    spec fn wf(self) -> bool {
        &&& entries_unique(self.index@)
        &&& forall|i: int|
            0 <= i < self.index@.len() ==> record_ok(
                self.log@,
                (#[trigger] self.index@[i]).position as int,
            ) && key_at(self.log@, self.index@[i].position as int) == self.index@[i].key@
    }

    /// Opens a store over the given file image with an empty index; `load`
    /// replays the image to rebuild the index.
    pub fn open(contents: Vec<u8>) -> (r: ActionKV)
        ensures
            r.log_view() == contents@,
            r.index_view() == Map::<Seq<u8>, int>::empty(),
    {
        let r = ActionKV { log: contents, index: Vec::new() };
        proof {
            assert(r.index@.len() == 0);
            assert(assoc_map(r.index@) == Map::<Seq<u8>, int>::empty());
        }
        r
    }

    /// Replays the file image from the start, rebuilding the index so that
    /// each key maps to the offset of its last record.
    ///
    /// Succeeds exactly when replay reaches a clean end of the log; a
    /// mismatched checksum surfaces as `Corruption` and a partial trailing
    /// record as `Truncation`. The index always holds the entries replayed up
    /// to the first failure.
    pub fn load(&mut self) -> (r: Result<(), StoreError>)
        ensures
            final(self).log_view() == old(self).log_view(),
            final(self).index_view() == replay_map(old(self).log_view(), 0, Map::empty()),
            replay_ok(old(self).log_view(), 0) ==> r == Ok::<(), StoreError>(()),
            !replay_ok(old(self).log_view(), 0) ==> r == Err::<(), StoreError>(
                if replay_corrupt(old(self).log_view(), 0) {
                    StoreError::Corruption
                } else {
                    StoreError::Truncation
                },
            ),
    {
        proof {
            use_type_invariant(&*self);
        }
        let mut tmp = ActionKV { log: Vec::new(), index: Vec::new() };
        core::mem::swap(self, &mut tmp);
        let ActionKV { log, index: _discarded } = tmp;
        let ghost lg = log@;
        let mut index: Vec<IndexEntry> = Vec::new();
        let mut position: usize = 0;
        let mut outcome: Result<(), StoreError> = Ok(());
        proof {
            assert(assoc_map(index@) == Map::<Seq<u8>, int>::empty());
        }
        loop
            invariant
                log@ == lg,
                position <= lg.len(),
                entries_unique(index@),
                forall|i: int|
                    0 <= i < index@.len() ==> record_ok(
                        lg,
                        (#[trigger] index@[i]).position as int,
                    ) && key_at(lg, index@[i].position as int) == index@[i].key@,
                replay_map(lg, 0, Map::empty()) == replay_map(lg, position as int, assoc_map(index@)),
                replay_ok(lg, 0) == replay_ok(lg, position as int),
                replay_corrupt(lg, 0) == replay_corrupt(lg, position as int),
            ensures
                log@ == lg,
                entries_unique(index@),
                forall|i: int|
                    0 <= i < index@.len() ==> record_ok(
                        lg,
                        (#[trigger] index@[i]).position as int,
                    ) && key_at(lg, index@[i].position as int) == index@[i].key@,
                assoc_map(index@) == replay_map(lg, 0, Map::empty()),
                replay_ok(lg, 0) ==> outcome == Ok::<(), StoreError>(()),
                !replay_ok(lg, 0) ==> outcome == Err::<(), StoreError>(
                    if replay_corrupt(lg, 0) {
                        StoreError::Corruption
                    } else {
                        StoreError::Truncation
                    },
                ),
            decreases lg.len() - position,
        {
            match process_record(&log, position) {
                Ok(kv) => {
                    let ghost pos = position as int;
                    assert(record_ok(lg, pos));
                    assert(kv.key@.len() == key_len_at(lg, pos));
                    assert(kv.value@.len() == value_at(lg, pos).len());
                    let key_len = kv.key.len();
                    let value_len = kv.value.len();
                    let log_len = log.len();
                    proof {
                        assert(crate::record::record_end(lg, pos) <= lg.len());
                        assert(position + 12 + key_len + value_len == crate::record::record_end(
                            lg,
                            pos,
                        ));
                    }
                    index_upsert(&mut index, kv.key.as_slice(), position);
                    position = position + 12 + key_len + value_len;
                    assert(position as int == crate::record::record_end(lg, pos));
                },
                Err(e) => {
                    if position >= log.len() {
                        outcome = Ok(());
                    } else {
                        outcome = Err(e);
                        assert(!record_ok(lg, position as int));
                        assert(replay_corrupt(lg, position as int) == record_complete(
                            lg,
                            position as int,
                        ));
                    }
                    break;
                },
            }
        }
        *self = ActionKV { log, index };
        outcome
    }

    /// Parses the single record that starts at `position` in the file image.
    pub fn get_at(&self, position: u64) -> (r: Result<KeyValuePair, StoreError>)
        ensures
            position >= self.log_view().len() ==> r == Err::<KeyValuePair, StoreError>(
                StoreError::EndOfStream,
            ),
            position < self.log_view().len() && !record_complete(self.log_view(), position as int)
                ==> r == Err::<KeyValuePair, StoreError>(StoreError::Truncation),
            record_complete(self.log_view(), position as int) && checksum_at(
                self.log_view(),
                position as int,
            ) != crc32_of(payload_at(self.log_view(), position as int)) ==> r == Err::<
                KeyValuePair,
                StoreError,
            >(StoreError::Corruption),
            record_ok(self.log_view(), position as int) ==> (r matches Ok(kv) && kv.key@ == key_at(
                self.log_view(),
                position as int,
            ) && kv.value@ == value_at(self.log_view(), position as int)),
    {
        let len = self.log.len();
        if position >= len as u64 {
            return Err(StoreError::EndOfStream);
        }
        process_record(&self.log, position as usize)
    }

    /// Looks `key` up in the index and reads its record's value from the
    /// offset stored there. Returns `None` exactly when the index holds no
    /// entry for the key; never scans the file.
    pub fn get(&self, key: &[u8]) -> (r: Result<Option<Vec<u8>>, StoreError>)
        ensures
            self.index_view().contains_key(key@) ==> (r matches Ok(Some(value)) && value@
                == value_at(self.log_view(), self.index_view()[key@])),
            !self.index_view().contains_key(key@) ==> r == Ok::<Option<Vec<u8>>, StoreError>(None),
    {
        proof {
            use_type_invariant(&*self);
        }
        match index_find(&self.index, key) {
            None => {
                proof {
                    lemma_assoc_map_absent(self.index@, key@);
                }
                Ok(None)
            },
            Some(i) => {
                proof {
                    lemma_assoc_map_entry(self.index@, i as int);
                }
                let position = self.index[i].position;
                match process_record(&self.log, position) {
                    Ok(kv) => Ok(Some(kv.value)),
                    Err(e) => Err(e),
                }
            },
        }
    }

    /// Appends the framed record for `(key, value)` at the end of the file
    /// image and points the index entry for `key` at the record's starting
    /// offset, which is returned. Prior bytes are never rewritten.
    pub fn insert(&mut self, key: &[u8], value: &[u8]) -> (r: u64)
        requires
            key@.len() <= u32::MAX,
            value@.len() <= u32::MAX,
            old(self).log_view().len() + 12 + key@.len() + value@.len() <= usize::MAX,
        ensures
            final(self).log_view() == old(self).log_view() + record_bytes(key@, value@),
            final(self).index_view() == old(self).index_view().insert(
                key@,
                old(self).log_view().len() as int,
            ),
            r == old(self).log_view().len(),
    {
        proof {
            use_type_invariant(&*self);
        }
        let mut tmp = ActionKV { log: Vec::new(), index: Vec::new() };
        core::mem::swap(self, &mut tmp);
        let ActionKV { mut log, mut index } = tmp;
        let ghost old_log = log@;
        let ghost rec = record_bytes(key@, value@);
        let position = log.len();
        append_record(&mut log, key, value);
        proof {
            lemma_record_round_trip(old_log, key@, value@);
            assert forall|i: int| 0 <= i < index@.len() implies record_ok(
                log@,
                (#[trigger] index@[i]).position as int,
            ) && key_at(log@, index@[i].position as int) == index@[i].key@ by {
                lemma_append_preserves_record(old_log, rec, index@[i].position as int);
            }
        }
        let ghost pre = index@;
        index_upsert(&mut index, key, position);
        proof {
            assert forall|i: int| 0 <= i < index@.len() implies record_ok(
                log@,
                (#[trigger] index@[i]).position as int,
            ) && key_at(log@, index@[i].position as int) == index@[i].key@ by {
                if index@[i].key@ == key@ && index@[i].position == position {
                } else {
                    let j = choose|j: int| 0 <= j < pre.len() && index@[i] == pre[j];
                    assert(record_ok(log@, pre[j].position as int));
                }
            }
        }
        *self = ActionKV { log, index };
        position as u64
    }

    /// Appends a newer record for `key`; the log being immutable, an update
    /// is an insert of a newer version.
    pub fn update(&mut self, key: &[u8], value: &[u8])
        requires
            key@.len() <= u32::MAX,
            value@.len() <= u32::MAX,
            old(self).log_view().len() + 12 + key@.len() + value@.len() <= usize::MAX,
        ensures
            final(self).log_view() == old(self).log_view() + record_bytes(key@, value@),
            final(self).index_view() == old(self).index_view().insert(
                key@,
                old(self).log_view().len() as int,
            ),
    {
        let _position = self.insert(key, value);
    }

    /// Appends a record for `key` with an empty value: the tombstone
    /// convention here is that a deleted key reads back as the empty value,
    /// not as an absent key.
    pub fn delete(&mut self, key: &[u8])
        requires
            key@.len() <= u32::MAX,
            old(self).log_view().len() + 12 + key@.len() <= usize::MAX,
        ensures
            final(self).log_view() == old(self).log_view() + record_bytes(
                key@,
                Seq::<u8>::empty(),
            ),
            final(self).index_view() == old(self).index_view().insert(
                key@,
                old(self).log_view().len() as int,
            ),
    {
        let empty: Vec<u8> = Vec::new();
        let _position = self.insert(key, empty.as_slice());
    }

    /// Scans every record from the start of the file image, independent of
    /// the index, and returns the offset and key of the last well-formed
    /// record for `target`. Fails like `load` when the image does not replay
    /// cleanly.
    pub fn find(&self, target: &[u8]) -> (r: Result<Option<(u64, Vec<u8>)>, StoreError>)
        ensures
            replay_ok(self.log_view(), 0) ==> (match scan_last(self.log_view(), 0, target@) {
                Some(pp) => r matches Ok(Some(p)) && p.0 as int == pp && p.1@ == target@,
                None => r == Ok::<Option<(u64, Vec<u8>)>, StoreError>(None),
            }),
            !replay_ok(self.log_view(), 0) ==> r == Err::<Option<(u64, Vec<u8>)>, StoreError>(
                if replay_corrupt(self.log_view(), 0) {
                    StoreError::Corruption
                } else {
                    StoreError::Truncation
                },
            ),
    {
        let ghost lg = self.log_view();
        let mut position: usize = 0;
        let mut found: Option<(u64, Vec<u8>)> = None;
        let mut outcome: Result<Option<(u64, Vec<u8>)>, StoreError> = Ok(None);
        loop
            invariant
                position <= lg.len(),
                lg == self.log_view(),
                replay_ok(lg, 0) == replay_ok(lg, position as int),
                replay_corrupt(lg, 0) == replay_corrupt(lg, position as int),
                match found {
                    Some(p) => scan_last(lg, 0, target@) == (if scan_last(
                        lg,
                        position as int,
                        target@,
                    ) is Some {
                        scan_last(lg, position as int, target@)
                    } else {
                        Some(p.0 as int)
                    }) && p.1@ == target@ && p.0 <= lg.len(),
                    None => scan_last(lg, 0, target@) == scan_last(lg, position as int, target@),
                },
            ensures
                replay_ok(lg, 0) ==> (match scan_last(lg, 0, target@) {
                    Some(pp) => outcome matches Ok(Some(p)) && p.0 as int == pp && p.1@ == target@,
                    None => outcome == Ok::<Option<(u64, Vec<u8>)>, StoreError>(None),
                }),
                !replay_ok(lg, 0) ==> outcome == Err::<Option<(u64, Vec<u8>)>, StoreError>(
                    if replay_corrupt(lg, 0) {
                        StoreError::Corruption
                    } else {
                        StoreError::Truncation
                    },
                ),
            decreases lg.len() - position,
        {
            match process_record(&self.log, position) {
                Ok(kv) => {
                    let ghost pos = position as int;
                    assert(record_ok(lg, pos));
                    let key_len = kv.key.len();
                    let value_len = kv.value.len();
                    let log_len = self.log.len();
                    proof {
                        assert(crate::record::record_end(lg, pos) <= lg.len());
                        assert(position + 12 + key_len + value_len == crate::record::record_end(
                            lg,
                            pos,
                        ));
                    }
                    let is_target = bytes_eq(kv.key.as_slice(), target);
                    let next = position + 12 + key_len + value_len;
                    if is_target {
                        found = Some((position as u64, kv.key));
                    }
                    position = next;
                },
                Err(e) => {
                    if position >= self.log.len() {
                        outcome = Ok(match found {
                            Some(p) => Some(p),
                            None => None,
                        });
                    } else {
                        outcome = Err(e);
                        assert(!record_ok(lg, position as int));
                        assert(replay_corrupt(lg, position as int) == record_complete(
                            lg,
                            position as int,
                        ));
                    }
                    break;
                },
            }
        }
        outcome
    }

    /// The offset at which the next record would be appended.
    pub fn seek_to_end(&self) -> (r: u64)
        ensures
            r == self.log_view().len(),
    {
        self.log.len() as u64
    }

    /// A copy of the full file image.
    pub fn log_bytes(&self) -> (r: Vec<u8>)
        ensures
            r@ == self.log_view(),
    {
        let len = self.log.len();
        let r = copy_range(&self.log, 0, len);
        proof {
            assert(self.log@.subrange(0, len as int) =~= self.log@);
        }
        r
    }

    /// A copy of the file image from `position` to the end: the bytes a
    /// write starting at `position` appended.
    pub fn bytes_from(&self, position: u64) -> (r: Vec<u8>)
        ensures
            position <= self.log_view().len() ==> r@ == self.log_view().subrange(
                position as int,
                self.log_view().len() as int,
            ),
            position > self.log_view().len() ==> r@ == Seq::<u8>::empty(),
    {
        let len = self.log.len();
        if position > len as u64 {
            let r: Vec<u8> = Vec::new();
            return r;
        }
        copy_range(&self.log, position as usize, len)
    }

    /// The offset the index holds for `key`, if any.
    pub fn index_position(&self, key: &[u8]) -> (r: Option<u64>)
        ensures
            match r {
                Some(p) => self.index_view().contains_key(key@) && p as int == self.index_view()[key@],
                None => !self.index_view().contains_key(key@),
            },
    {
        proof {
            use_type_invariant(&*self);
        }
        match index_find(&self.index, key) {
            None => {
                proof {
                    lemma_assoc_map_absent(self.index@, key@);
                }
                None
            },
            Some(i) => {
                proof {
                    lemma_assoc_map_entry(self.index@, i as int);
                }
                Some(self.index[i].position as u64)
            },
        }
    }
}

} // verus!
