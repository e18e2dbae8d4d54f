use libactionkv::{encode, store_index_on_disk, ActionKV, KeyIndex, RecordError, SnapshotError};

fn init_db() -> ActionKV {
    let mut store = ActionKV::open(Vec::new());
    store.load().expect("unable to load data");
    store
}

#[test]
fn test_get_action() {
    let mut store = init_db();
    let key = "apple";
    let value = "100";
    store.insert(key.as_bytes(), value.as_bytes());
    store.load().expect("unable to load data");
    let value_from_db = store.get(key.as_bytes()).unwrap();
    assert_eq!(value_from_db.unwrap(), value.as_bytes());
}

#[test]
fn test_find_action() {
    let mut store = init_db();
    let key = "apple";
    let value = "100";
    store.insert(key.as_bytes(), value.as_bytes());
    store.load().expect("unable to load data");
    let value_from_db = store.find(key.as_bytes()).unwrap();
    let pos = store.index.get(key.as_bytes()).unwrap();
    assert_eq!(value_from_db.unwrap(), (pos, value.as_bytes().to_vec()));
}

#[test]
fn encode_gives_exact_bytes() {
    let bytes = encode(b"apple", b"100");
    let mut expected = vec![35u8, 182, 37, 18, 5, 0, 0, 0, 3, 0, 0, 0];
    expected.extend_from_slice(b"apple100");
    assert_eq!(bytes, expected);
}

#[test]
fn encode_empty_record() {
    assert_eq!(encode(b"", b""), vec![0u8; 12]);
}

#[test]
fn round_trip_with_empty_parts() {
    let cases: Vec<(&[u8], &[u8])> = vec![(b"", b""), (b"k", b""), (b"", b"v"), (b"apple", b"100")];
    for (k, v) in cases {
        let bytes = encode(k, v);
        let kv = ActionKV::process_record(&bytes, 0).unwrap();
        assert_eq!(kv.key, k.to_vec());
        assert_eq!(kv.value, v.to_vec());
    }
}

#[test]
fn every_flipped_payload_bit_is_corruption() {
    let bytes = encode(b"apple", b"100");
    for i in 12..bytes.len() {
        for bit in 0..8 {
            let mut flipped = bytes.clone();
            flipped[i] ^= 1u8 << bit;
            assert_eq!(ActionKV::process_record(&flipped, 0), Err(RecordError::Corruption));
        }
    }
}

#[test]
fn short_input_is_truncated() {
    let bytes = encode(b"apple", b"100");
    assert_eq!(ActionKV::process_record(&bytes[..11], 0), Err(RecordError::Truncated));
    assert_eq!(ActionKV::process_record(&bytes[..19], 0), Err(RecordError::Truncated));
    assert_eq!(ActionKV::process_record(&bytes, 21), Err(RecordError::Truncated));
}

#[test]
fn latest_write_wins() {
    let mut store = init_db();
    store.insert(b"k", b"v1");
    store.insert(b"k", b"v2");
    assert_eq!(store.get(b"k").unwrap(), Some(b"v2".to_vec()));
    store.load().unwrap();
    assert_eq!(store.get(b"k").unwrap(), Some(b"v2".to_vec()));
    let mut fresh = ActionKV::open(store.log().to_vec());
    fresh.load().unwrap();
    assert_eq!(fresh.get(b"k").unwrap(), Some(b"v2".to_vec()));
}

#[test]
fn update_is_a_new_version() {
    let mut store = init_db();
    store.insert(b"k", b"v1");
    store.update(b"k", b"v9");
    assert_eq!(store.get(b"k").unwrap(), Some(b"v9".to_vec()));
}

#[test]
fn delete_leaves_tombstone() {
    let mut store = init_db();
    store.insert(b"k", b"v1");
    store.delete(b"k");
    assert_eq!(store.get(b"k").unwrap(), Some(Vec::new()));
    assert_eq!(store.index.get(b"k"), Some(15));
}

#[test]
fn load_twice_is_load_once() {
    let mut store = init_db();
    store.insert(b"a", b"1");
    store.insert(b"b", b"2");
    store.insert(b"a", b"3");
    let mut once = ActionKV::open(store.log().to_vec());
    once.load().unwrap();
    let mut twice = ActionKV::open(store.log().to_vec());
    twice.load().unwrap();
    twice.load().unwrap();
    assert_eq!(once.index.len(), 2);
    assert_eq!(twice.index.len(), 2);
    for k in [&b"a"[..], &b"b"[..]] {
        assert_eq!(once.index.get(k), twice.index.get(k));
    }
    assert_eq!(once.index.get(b"a"), Some(28));
}

#[test]
fn find_agrees_with_get() {
    let mut store = init_db();
    store.insert(b"a", b"1");
    store.insert(b"b", b"22");
    store.delete(b"a");
    store.insert(b"b", b"333");
    for k in [&b"a"[..], &b"b"[..]] {
        let (pos, value) = store.find(k).unwrap().unwrap();
        assert_eq!(value, store.get(k).unwrap().unwrap());
        assert_eq!(Some(pos), store.index.get(k));
    }
}

#[test]
fn find_returns_second_record() {
    let mut store = init_db();
    store.insert(b"apple", b"100");
    store.insert(b"apple", b"200");
    assert_eq!(store.find(b"apple").unwrap(), Some((20, b"200".to_vec())));
}

#[test]
fn get_missing_is_not_found() {
    let mut store = init_db();
    store.insert(b"apple", b"100");
    assert_eq!(store.get(b"missing"), Ok(None));
    assert_eq!(store.find(b"missing"), Ok(None));
}

#[test]
fn corrupt_checksum_fails_load() {
    let mut store = init_db();
    store.insert(b"apple", b"100");
    store.insert(b"pear", b"7");
    let mut bytes = store.log().to_vec();
    bytes[20] ^= 0xff;
    let mut reopened = ActionKV::open(bytes);
    assert_eq!(reopened.load(), Err(RecordError::Corruption));
    assert_eq!(reopened.index.get(b"apple"), Some(0));
    assert_eq!(reopened.index.get(b"pear"), None);
    assert_eq!(reopened.find(b"apple"), Err(RecordError::Corruption));
}

#[test]
fn trailing_partial_record_ends_replay() {
    let mut bytes = encode(b"apple", b"100");
    bytes.extend_from_slice(&[1, 2, 3]);
    let mut store = ActionKV::open(bytes);
    assert_eq!(store.load(), Ok(()));
    assert_eq!(store.get(b"apple").unwrap(), Some(b"100".to_vec()));
}

#[test]
fn get_at_reads_records_and_reports_bad_offsets() {
    let mut store = init_db();
    store.insert(b"apple", b"100");
    let kv = store.get_at(0).unwrap();
    assert_eq!(kv.key, b"apple".to_vec());
    assert_eq!(kv.value, b"100".to_vec());
    assert_eq!(store.get_at(1 << 40), Err(RecordError::Truncated));
    assert_eq!(store.get_at(3), Err(RecordError::Truncated));
}

#[test]
fn insert_but_ignore_index_returns_offset() {
    let mut store = init_db();
    assert_eq!(store.insert_but_ignore_index(b"apple", b"100"), 0);
    assert_eq!(store.insert_but_ignore_index(b"x", b""), 20);
    assert_eq!(store.index.len(), 0);
    assert_eq!(store.log().len(), 33);
}

#[test]
fn key_index_operations() {
    let mut idx = KeyIndex::new();
    idx.insert(b"a".to_vec(), 5);
    idx.insert(b"b".to_vec(), 6);
    idx.insert(b"a".to_vec(), 7);
    assert_eq!(idx.len(), 2);
    assert_eq!(idx.get(b"a"), Some(7));
    idx.remove(b"a");
    assert_eq!(idx.get(b"a"), None);
    assert_eq!(idx.len(), 1);
    let rest = idx.entries_except(b"zz");
    assert_eq!(rest, vec![(b"b".to_vec(), 6u64)]);
}

#[test]
fn snapshot_round_trip() {
    let mut store = init_db();
    store.insert(b"apple", b"100");
    store.insert(b"pear", b"7");
    store_index_on_disk(&mut store, b"+index").unwrap();
    assert_eq!(store.index.len(), 1);
    assert_eq!(store.index.get(b"+index"), Some(37));
    assert_eq!(store.get_via_snapshot(b"+index", b"apple"), Ok(Some(b"100".to_vec())));
    assert_eq!(store.get_via_snapshot(b"+index", b"pear"), Ok(Some(b"7".to_vec())));
    assert_eq!(store.get_via_snapshot(b"+index", b"plum"), Ok(None));
    let blob = store.get(b"+index").unwrap().unwrap();
    let mut expected = vec![2u8, 0, 0, 0, 0, 0, 0, 0];
    for (k, off) in [(&b"apple"[..], 0u64), (&b"pear"[..], 20u64)] {
        expected.extend_from_slice(&(k.len() as u64).to_le_bytes());
        expected.extend_from_slice(k);
        expected.extend_from_slice(&off.to_le_bytes());
    }
    assert_eq!(blob, expected);
}

#[test]
fn snapshot_drops_the_old_snapshot_entry() {
    let mut store = init_db();
    store.insert(b"apple", b"100");
    store_index_on_disk(&mut store, b"+index").unwrap();
    store.insert(b"pear", b"7");
    store_index_on_disk(&mut store, b"+index").unwrap();
    assert_eq!(store.get_via_snapshot(b"+index", b"pear"), Ok(Some(b"7".to_vec())));
    assert_eq!(store.get_via_snapshot(b"+index", b"apple"), Ok(None));
    assert_eq!(store.get_via_snapshot(b"+index", b"+index"), Ok(None));
}

#[test]
fn snapshot_errors() {
    let mut store = init_db();
    assert_eq!(store.get_via_snapshot(b"+index", b"apple"), Err(SnapshotError::Missing));
    store.insert(b"+index", b"xyz");
    assert_eq!(store.get_via_snapshot(b"+index", b"apple"), Err(SnapshotError::Decode));
}

#[test]
fn store_snapshot_writes_one_record() {
    let mut store = init_db();
    store.insert(b"a", b"1");
    store.store_snapshot(b"+i", b"blob").unwrap();
    assert_eq!(store.index.len(), 1);
    assert_eq!(store.get(b"+i").unwrap(), Some(b"blob".to_vec()));
    assert_eq!(store.get(b"a").unwrap(), None);
}

#[test]
fn get_of_corrupt_indexed_record_is_corruption() {
    let mut store = init_db();
    store.insert(b"apple", b"100");
    let mut bytes = store.log().to_vec();
    bytes[14] ^= 0x01;
    let mut reopened = ActionKV::open(bytes);
    reopened.index.insert(b"apple".to_vec(), 0);
    assert_eq!(reopened.get(b"apple"), Err(RecordError::Corruption));
}
