use actionkv::record::{process_record, StoreError};
use actionkv::store::ActionKV;

fn checksum_of(payload: &[u8]) -> u32 {
    crc::Crc::<u32>::new(&crc::CRC_32_ISO_HDLC).checksum(payload)
}

#[test]
fn round_trip_insert_get() {
    let mut store = ActionKV::open(Vec::new());
    let offset = store.insert(b"key", b"value");
    assert_eq!(offset, 0);
    let got = store.get(b"key").unwrap();
    assert_eq!(got, Some(b"value".to_vec()));
}

#[test]
fn last_write_wins() {
    let mut store = ActionKV::open(Vec::new());
    store.insert(b"k", b"v1");
    let second = store.insert(b"k", b"v2");
    assert_eq!(store.get(b"k").unwrap(), Some(b"v2".to_vec()));
    assert_eq!(store.index_position(b"k"), Some(second));

    // replaying the same bytes resolves the key to the second record too
    let mut reloaded = ActionKV::open(store.log_bytes());
    reloaded.load().unwrap();
    assert_eq!(reloaded.index_position(b"k"), Some(second));
    assert_eq!(reloaded.get(b"k").unwrap(), Some(b"v2".to_vec()));
}

#[test]
fn delete_reads_back_as_empty_value() {
    let mut store = ActionKV::open(Vec::new());
    store.insert(b"gone", b"data");
    store.delete(b"gone");
    // tombstone convention: a deleted key reads back as the empty value
    assert_eq!(store.get(b"gone").unwrap(), Some(Vec::new()));
    // a key never written is truly absent
    assert_eq!(store.get(b"missing").unwrap(), None);
}

#[test]
fn update_appends_newer_version() {
    let mut store = ActionKV::open(Vec::new());
    store.insert(b"a", b"old");
    let before = store.seek_to_end();
    store.update(b"a", b"new");
    assert!(store.seek_to_end() > before);
    assert_eq!(store.get(b"a").unwrap(), Some(b"new".to_vec()));
}

#[test]
fn scenario_three_writes_and_reload() {
    let mut store = ActionKV::open(Vec::new());
    let first = store.insert(b"a", b"1");
    let second = store.insert(b"b", b"2");
    store.update(b"a", b"99");
    assert_eq!(first, 0);
    assert_eq!(second, 14);
    assert_eq!(store.get(b"a").unwrap(), Some(b"99".to_vec()));
    assert_eq!(store.get(b"b").unwrap(), Some(b"2".to_vec()));
    assert_eq!(store.get(b"c").unwrap(), None);
    assert_eq!(store.index_position(b"a"), Some(28));
    assert_eq!(store.index_position(b"b"), Some(14));

    // reopening the same file image and replaying reproduces the index
    let mut reloaded = ActionKV::open(store.log_bytes());
    reloaded.load().unwrap();
    assert_eq!(reloaded.index_position(b"a"), Some(28));
    assert_eq!(reloaded.index_position(b"b"), Some(14));
    assert_eq!(reloaded.index_position(b"c"), None);
    assert_eq!(reloaded.get(b"a").unwrap(), Some(b"99".to_vec()));
    assert_eq!(reloaded.get(b"b").unwrap(), Some(b"2".to_vec()));
    assert_eq!(reloaded.get(b"c").unwrap(), None);
}

#[test]
fn record_layout_is_checksum_lengths_payload() {
    let mut store = ActionKV::open(Vec::new());
    store.insert(b"a", b"1");
    let mut expected = Vec::new();
    expected.extend_from_slice(&checksum_of(b"a1").to_le_bytes());
    expected.extend_from_slice(&1u32.to_le_bytes());
    expected.extend_from_slice(&1u32.to_le_bytes());
    expected.extend_from_slice(b"a1");
    assert_eq!(store.log_bytes(), expected);
}

#[test]
fn bit_flips_in_payload_are_detected() {
    let mut store = ActionKV::open(Vec::new());
    store.insert(b"a", b"1");
    let clean = store.log_bytes();
    // flip every bit of the stored payload in turn, leaving the checksum
    for byte in 12..clean.len() {
        for bit in 0..8 {
            let mut corrupt = clean.clone();
            corrupt[byte] ^= 1 << bit;
            assert_eq!(process_record(&corrupt, 0).unwrap_err(), StoreError::Corruption);
            let mut reloaded = ActionKV::open(corrupt);
            assert_eq!(reloaded.load().unwrap_err(), StoreError::Corruption);
        }
    }
}

#[test]
fn flipped_checksum_is_detected() {
    let mut store = ActionKV::open(Vec::new());
    store.insert(b"a", b"1");
    let mut corrupt = store.log_bytes();
    corrupt[0] ^= 0x01;
    let mut reloaded = ActionKV::open(corrupt);
    assert_eq!(reloaded.load().unwrap_err(), StoreError::Corruption);
}

#[test]
fn truncated_records_are_reported() {
    let mut store = ActionKV::open(Vec::new());
    store.insert(b"a", b"1");
    let clean = store.log_bytes();
    // cut inside the header
    let mut reloaded = ActionKV::open(clean[..5].to_vec());
    assert_eq!(reloaded.load().unwrap_err(), StoreError::Truncation);
    // cut inside the payload
    let mut reloaded = ActionKV::open(clean[..13].to_vec());
    assert_eq!(reloaded.load().unwrap_err(), StoreError::Truncation);
    // an empty file replays cleanly
    let mut empty = ActionKV::open(Vec::new());
    assert_eq!(empty.load(), Ok(()));
    assert_eq!(empty.seek_to_end(), 0);
}

#[test]
fn end_of_stream_at_a_fresh_header() {
    let mut store = ActionKV::open(Vec::new());
    store.insert(b"a", b"1");
    let log = store.log_bytes();
    assert_eq!(process_record(&log, log.len()).unwrap_err(), StoreError::EndOfStream);
    assert_eq!(store.get_at(log.len() as u64).unwrap_err(), StoreError::EndOfStream);
    let kv = store.get_at(0).unwrap();
    assert_eq!(kv.key, b"a".to_vec());
    assert_eq!(kv.value, b"1".to_vec());
}

#[test]
fn appends_leave_prior_bytes_unchanged() {
    let mut store = ActionKV::open(Vec::new());
    store.insert(b"first", b"1");
    let before = store.log_bytes();
    let offset = store.insert(b"second", b"2");
    let after = store.log_bytes();
    assert_eq!(offset as usize, before.len());
    assert_eq!(&after[..before.len()], &before[..]);
    assert_eq!(store.bytes_from(offset), after[before.len()..].to_vec());
}

#[test]
fn find_scans_for_the_last_occurrence() {
    let mut store = ActionKV::open(Vec::new());
    store.insert(b"a", b"1");
    store.insert(b"b", b"2");
    let last = store.insert(b"a", b"3");
    assert_eq!(store.find(b"a").unwrap(), Some((last, b"a".to_vec())));
    assert_eq!(store.find(b"b").unwrap(), Some((14, b"b".to_vec())));
    assert_eq!(store.find(b"c").unwrap(), None);

    let mut corrupt = store.log_bytes();
    let len = corrupt.len();
    corrupt[len - 1] ^= 0x80;
    let damaged = ActionKV::open(corrupt);
    assert_eq!(damaged.find(b"a").unwrap_err(), StoreError::Corruption);
}

#[test]
fn load_rebuilds_only_from_the_log() {
    let mut store = ActionKV::open(Vec::new());
    store.insert(b"x", b"1");
    store.insert(b"y", b"2");
    store.delete(b"x");
    // a fresh handle over the same bytes replays to the same mapping
    let mut replayed = ActionKV::open(store.log_bytes());
    assert_eq!(replayed.index_position(b"x"), None);
    replayed.load().unwrap();
    for key in [b"x".as_slice(), b"y".as_slice(), b"z".as_slice()] {
        assert_eq!(replayed.index_position(key), store.index_position(key));
        assert_eq!(replayed.get(key).unwrap(), store.get(key).unwrap());
    }
}
