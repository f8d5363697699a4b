use lsmkv::bytes::{push_le, read_le};
use lsmkv::entries::Entry;
use lsmkv::keys::{KeyCmp, key_compare};
use lsmkv::manifest::{man_decode_exec, man_encode};
use lsmkv::memtable::Memtable;
use lsmkv::sstable::{sst_decode_exec, sst_encode};
use lsmkv::wal::replay;

#[test]
fn little_endian_layout() {
    let mut out: Vec<u8> = Vec::new();
    push_le(&mut out, 0x01020304, 4);
    assert_eq!(out, vec![0x04, 0x03, 0x02, 0x01]);
    push_le(&mut out, 7, 8);
    assert_eq!(out.len(), 12);
    assert_eq!(read_le(&out, 0, 4), 0x01020304);
    assert_eq!(read_le(&out, 4, 8), 7);
}

#[test]
fn key_order() {
    assert_eq!(key_compare(&b"a".to_vec(), &b"b".to_vec()), KeyCmp::Below);
    assert_eq!(key_compare(&b"b".to_vec(), &b"a".to_vec()), KeyCmp::Above);
    assert_eq!(key_compare(&b"a".to_vec(), &b"a".to_vec()), KeyCmp::Same);
    // A proper prefix comes before what it begins.
    assert_eq!(key_compare(&b"a".to_vec(), &b"ab".to_vec()), KeyCmp::Below);
    assert_eq!(key_compare(&b"".to_vec(), &b"a".to_vec()), KeyCmp::Below);
}

#[test]
fn memtable_keeps_keys_sorted() {
    let mut mt = Memtable::new();
    mt.insert(b"c".to_vec(), 3);
    mt.insert(b"a".to_vec(), 1);
    mt.insert(b"b".to_vec(), 2);
    mt.insert(b"a".to_vec(), 9);
    assert_eq!(mt.size(), 3);
    assert_eq!(mt.lookup(&b"a".to_vec()), Some(9));
    assert_eq!(mt.lookup(&b"d".to_vec()), None);
    let drained = mt.drain();
    assert_eq!(mt.size(), 0);
    let keys: Vec<Vec<u8>> = drained.iter().map(|e| e.key.clone()).collect();
    assert_eq!(keys, vec![b"a".to_vec(), b"b".to_vec(), b"c".to_vec()]);
    assert_eq!(drained[0].value, 9);
}

#[test]
fn memtable_remove() {
    let mut mt = Memtable::new();
    mt.insert(b"a".to_vec(), 1);
    mt.insert(b"b".to_vec(), 2);
    mt.remove(&b"a".to_vec());
    assert_eq!(mt.lookup(&b"a".to_vec()), None);
    assert_eq!(mt.lookup(&b"b".to_vec()), Some(2));
    assert_eq!(mt.size(), 1);
}

#[test]
fn sstable_round_trip() {
    let entries = vec![
        Entry { key: b"ant".to_vec(), value: 1 },
        Entry { key: b"bee".to_vec(), value: 2 },
        Entry { key: b"cat".to_vec(), value: 3 },
    ];
    let bytes = sst_encode(&entries);
    // The table opens with its pair count.
    assert_eq!(read_le(&bytes, 0, 8), 3);
    let back = sst_decode_exec(&bytes).unwrap();
    assert_eq!(back.len(), 3);
    assert_eq!(back[1].key, b"bee".to_vec());
    assert_eq!(back[1].value, 2);
}

#[test]
fn sstable_rejects_unsorted_pairs() {
    // Hand-built table bytes holding "b" before "a": count 2, each pair
    // an 8-byte key length, the key, an 8-byte value.
    let mut bytes: Vec<u8> = Vec::new();
    push_le(&mut bytes, 2, 8);
    for (k, v) in [(b'b', 2u64), (b'a', 1u64)] {
        push_le(&mut bytes, 1, 8);
        bytes.push(k);
        push_le(&mut bytes, v, 8);
    }
    assert!(sst_decode_exec(&bytes).is_none());
}

#[test]
fn sstable_rejects_trailing_bytes() {
    let entries = vec![Entry { key: b"a".to_vec(), value: 1 }];
    let mut bytes = sst_encode(&entries);
    bytes.push(0);
    assert!(sst_decode_exec(&bytes).is_none());
}

#[test]
fn manifest_round_trip() {
    let ids: Vec<u64> = vec![0, 1, 7];
    let bytes = man_encode(&ids);
    assert_eq!(bytes.len(), 8 + 8 * 3);
    assert_eq!(read_le(&bytes, 0, 8), 3);
    assert_eq!(read_le(&bytes, 8 + 16, 8), 7);
    let back = man_decode_exec(&bytes).unwrap();
    assert_eq!(back, ids);
}

#[test]
fn manifest_rejects_short_bytes() {
    assert!(man_decode_exec(&vec![1, 2, 3]).is_none());
    let mut bytes = man_encode(&vec![4u64]);
    bytes.pop();
    assert!(man_decode_exec(&bytes).is_none());
}

#[test]
fn replay_rebuilds_the_buffer() {
    let mut lsm = lsmkv::engine::Lsm::open(lsmkv::engine::Storage::new(), 10).unwrap();
    lsm.put(b"a".to_vec(), 1).unwrap();
    lsm.put(b"b".to_vec(), 2).unwrap();
    lsm.put(b"a".to_vec(), 5).unwrap();
    let (mt, used) = replay(&lsm.storage.wal);
    assert_eq!(used, lsm.storage.wal.len());
    assert_eq!(mt.lookup(&b"a".to_vec()), Some(5));
    assert_eq!(mt.lookup(&b"b".to_vec()), Some(2));
    assert_eq!(mt.size(), 2);
}

#[test]
fn replay_stops_at_a_checksum_mismatch() {
    let mut lsm = lsmkv::engine::Lsm::open(lsmkv::engine::Storage::new(), 10).unwrap();
    lsm.put(b"a".to_vec(), 1).unwrap();
    lsm.put(b"b".to_vec(), 2).unwrap();
    let mut wal = lsm.storage.wal.clone();
    // Damage one byte of the first record's stored value: the record still
    // decodes, but its checksum no longer matches, so nothing at all is
    // recovered past that point.
    let end = 21;
    wal[end] ^= 0x01;
    let (mt, used) = replay(&wal);
    assert_eq!(used, 0);
    assert_eq!(mt.size(), 0);
}
