use lsmkv::LsmError;
use lsmkv::engine::{Lsm, Storage, TableFile};

fn fresh(capacity: usize) -> Lsm {
    Lsm::open(Storage::new(), capacity).unwrap()
}

#[test]
fn it_works() {
    let mut lsm = fresh(2);

    lsm.put(b"p".to_vec(), 4).unwrap();
    lsm.put(b"j".to_vec(), 7).unwrap();

    assert_eq!(lsm.get(&b"p".to_vec()).unwrap(), Some(4));

    lsm.put(b"b".to_vec(), 10).unwrap();

    assert_eq!(lsm.get(&b"p".to_vec()).unwrap(), Some(4));

    lsm.put(b"a".to_vec(), 2).unwrap();
    assert_eq!(lsm.get(&b"j".to_vec()).unwrap(), Some(7));

    lsm.put(b"t".to_vec(), 3847).unwrap();
    assert_eq!(lsm.get(&b"p".to_vec()).unwrap(), Some(4));
    assert_eq!(lsm.get(&b"j".to_vec()).unwrap(), Some(7));
    assert_eq!(lsm.get(&b"b".to_vec()).unwrap(), Some(10));
    assert_eq!(lsm.get(&b"a".to_vec()).unwrap(), Some(2));
    assert_eq!(lsm.get(&b"t".to_vec()).unwrap(), Some(3847));

    assert_eq!(4, 4);
}

#[test]
fn read_after_write() {
    let mut lsm = fresh(4);
    lsm.put(b"alpha".to_vec(), 1).unwrap();
    assert_eq!(lsm.get(&b"alpha".to_vec()).unwrap(), Some(1));
}

#[test]
fn overwrite_in_memtable() {
    let mut lsm = fresh(4);
    lsm.put(b"k".to_vec(), 1).unwrap();
    lsm.put(b"k".to_vec(), 2).unwrap();
    assert_eq!(lsm.get(&b"k".to_vec()).unwrap(), Some(2));
}

#[test]
fn overwrite_across_flush() {
    let mut lsm = fresh(2);
    lsm.put(b"k".to_vec(), 1).unwrap();
    lsm.put(b"x".to_vec(), 9).unwrap();
    // The next put flushes {k, x} into a table, and k's old value with it.
    lsm.put(b"y".to_vec(), 8).unwrap();
    assert_eq!(lsm.storage.files.len(), 1);
    // The fresh write must win over the value inside the table.
    lsm.put(b"k".to_vec(), 2).unwrap();
    assert_eq!(lsm.get(&b"k".to_vec()).unwrap(), Some(2));
}

#[test]
fn absence() {
    let mut lsm = fresh(2);
    assert_eq!(lsm.get(&b"nobody".to_vec()).unwrap(), None);
    lsm.put(b"p".to_vec(), 4).unwrap();
    assert_eq!(lsm.get(&b"nobody".to_vec()).unwrap(), None);
}

#[test]
fn flush_durability() {
    let mut lsm = fresh(2);
    lsm.put(b"a".to_vec(), 1).unwrap();
    lsm.put(b"b".to_vec(), 2).unwrap();
    assert_eq!(lsm.storage.files.len(), 0);
    // At capacity: this put drains the memtable into a new table first.
    lsm.put(b"c".to_vec(), 3).unwrap();
    assert_eq!(lsm.storage.files.len(), 1);
    assert_eq!(lsm.tables.len(), 1);
    assert!(lsm.storage.manifest.is_some());
    assert_eq!(lsm.memtable.size(), 1);
    // The flushed keys are still served, now from the table.
    assert_eq!(lsm.get(&b"a".to_vec()).unwrap(), Some(1));
    assert_eq!(lsm.get(&b"b".to_vec()).unwrap(), Some(2));
    assert_eq!(lsm.get(&b"c".to_vec()).unwrap(), Some(3));
}

#[test]
fn crash_recovery_from_wal() {
    let mut lsm = fresh(10);
    lsm.put(b"a".to_vec(), 1).unwrap();
    lsm.put(b"b".to_vec(), 2).unwrap();
    // No clean shutdown: reopen against the same durable state.
    let st = lsm.storage;
    let lsm2 = Lsm::open(st, 10).unwrap();
    assert_eq!(lsm2.get(&b"a".to_vec()).unwrap(), Some(1));
    assert_eq!(lsm2.get(&b"b".to_vec()).unwrap(), Some(2));
    assert_eq!(lsm2.get(&b"c".to_vec()).unwrap(), None);
}

#[test]
fn crash_recovery_with_tables() {
    let mut lsm = fresh(2);
    lsm.put(b"a".to_vec(), 1).unwrap();
    lsm.put(b"b".to_vec(), 2).unwrap();
    lsm.put(b"c".to_vec(), 3).unwrap();
    lsm.put(b"d".to_vec(), 4).unwrap();
    let st = lsm.storage;
    let lsm2 = Lsm::open(st, 2).unwrap();
    assert_eq!(lsm2.get(&b"a".to_vec()).unwrap(), Some(1));
    assert_eq!(lsm2.get(&b"b".to_vec()).unwrap(), Some(2));
    assert_eq!(lsm2.get(&b"c".to_vec()).unwrap(), Some(3));
    assert_eq!(lsm2.get(&b"d".to_vec()).unwrap(), Some(4));
}

#[test]
fn torn_wal_tail_loses_only_the_tail() {
    let mut lsm = fresh(10);
    lsm.put(b"a".to_vec(), 1).unwrap();
    lsm.put(b"b".to_vec(), 2).unwrap();
    let mut st = lsm.storage;
    // Damage the last byte of the log: the second record's checksum no
    // longer matches its content.
    let end = st.wal.len() - 1;
    st.wal[end] ^= 0xff;
    let lsm2 = Lsm::open(st, 10).unwrap();
    assert_eq!(lsm2.get(&b"a".to_vec()).unwrap(), Some(1));
    assert_eq!(lsm2.get(&b"b".to_vec()).unwrap(), None);
}

#[test]
fn garbage_after_wal_is_dropped() {
    let mut lsm = fresh(10);
    lsm.put(b"a".to_vec(), 1).unwrap();
    lsm.put(b"b".to_vec(), 2).unwrap();
    let mut st = lsm.storage;
    // A torn partial record at the tail: too short to decode.
    st.wal.push(9);
    st.wal.push(9);
    st.wal.push(9);
    let lsm2 = Lsm::open(st, 10).unwrap();
    // Everything before the damage survives.
    assert_eq!(lsm2.get(&b"a".to_vec()).unwrap(), Some(1));
    assert_eq!(lsm2.get(&b"b".to_vec()).unwrap(), Some(2));
    // The torn tail is discarded from the log itself: two records of a
    // one-byte key are 44 bytes.
    assert_eq!(lsm2.storage.wal.len(), 44);
    let st2 = lsm2.storage;
    let lsm3 = Lsm::open(st2, 10).unwrap();
    assert_eq!(lsm3.get(&b"b".to_vec()).unwrap(), Some(2));
}

#[test]
fn recovered_prefix_accepts_new_writes() {
    let mut lsm = fresh(10);
    lsm.put(b"a".to_vec(), 1).unwrap();
    lsm.put(b"b".to_vec(), 2).unwrap();
    let mut st = lsm.storage;
    let end = st.wal.len() - 1;
    st.wal[end] ^= 0xff;
    let mut lsm2 = Lsm::open(st, 10).unwrap();
    // The engine goes on accepting writes after a torn-tail recovery,
    // and they survive another restart.
    lsm2.put(b"c".to_vec(), 3).unwrap();
    let st2 = lsm2.storage;
    let lsm3 = Lsm::open(st2, 10).unwrap();
    assert_eq!(lsm3.get(&b"a".to_vec()).unwrap(), Some(1));
    assert_eq!(lsm3.get(&b"b".to_vec()).unwrap(), None);
    assert_eq!(lsm3.get(&b"c".to_vec()).unwrap(), Some(3));
}

#[test]
fn manifest_corruption_is_fatal() {
    let mut st = Storage::new();
    st.manifest = Some(vec![1, 2, 3]);
    match Lsm::open(st, 2) {
        Err(e) => assert_eq!(e, LsmError::ManifestCorrupt),
        Ok(_) => panic!("an undecodable catalog must refuse to open"),
    }
}

#[test]
fn missing_table_file_fails_the_lookup() {
    let mut lsm = fresh(1);
    lsm.put(b"a".to_vec(), 1).unwrap();
    lsm.put(b"b".to_vec(), 2).unwrap();
    assert_eq!(lsm.storage.files.len(), 1);
    let mut st = lsm.storage;
    st.files.clear();
    let lsm2 = Lsm::open(st, 1).unwrap();
    assert_eq!(lsm2.get(&b"a".to_vec()), Err(LsmError::TableMissing));
    // The key still in the memtable is untouched by the damage.
    assert_eq!(lsm2.get(&b"b".to_vec()).unwrap(), Some(2));
}

#[test]
fn corrupt_table_file_fails_the_lookup() {
    let mut lsm = fresh(1);
    lsm.put(b"a".to_vec(), 1).unwrap();
    lsm.put(b"b".to_vec(), 2).unwrap();
    let mut st = lsm.storage;
    st.files[0].bytes.pop();
    let lsm2 = Lsm::open(st, 1).unwrap();
    assert_eq!(lsm2.get(&b"a".to_vec()), Err(LsmError::TableCorrupt));
}

#[test]
fn exhausted_identifier_space_refuses_a_flush() {
    // A catalog naming the largest possible identifier: 1 entry, id
    // 2^64 - 1, as the manifest codec lays it out.
    let mut mb = vec![1, 0, 0, 0, 0, 0, 0, 0];
    mb.extend_from_slice(&[0xff; 8]);
    let mut st = Storage::new();
    st.manifest = Some(mb);
    // Give the named table a file so the catalog is sound.
    let mut lsm0 = fresh(1);
    lsm0.put(b"a".to_vec(), 1).unwrap();
    lsm0.put(b"b".to_vec(), 2).unwrap();
    let table_bytes = lsm0.storage.files[0].bytes.clone();
    st.files.push(TableFile { id: u64::MAX, bytes: table_bytes });
    let mut lsm = Lsm::open(st, 0).unwrap();
    // Capacity 0: every put flushes first, and no fresh name is left.
    assert_eq!(lsm.put(b"x".to_vec(), 7), Err(LsmError::CatalogFull));
    // The failed put changed nothing.
    assert_eq!(lsm.get(&b"x".to_vec()).unwrap(), None);
}

#[test]
fn wal_resets_after_flush() {
    let mut lsm = fresh(2);
    lsm.put(b"a".to_vec(), 1).unwrap();
    lsm.put(b"b".to_vec(), 2).unwrap();
    let before = lsm.storage.wal.len();
    assert!(before > 0);
    lsm.put(b"c".to_vec(), 3).unwrap();
    // After the flush the log holds only the record for "c".
    assert_eq!(lsm.storage.wal.len(), 21 + 1);
    assert_eq!(lsm.get(&b"a".to_vec()).unwrap(), Some(1));
}

#[test]
fn bytes_written_matches_record_size() {
    let mut lsm = fresh(4);
    let n = lsm.put(b"abc".to_vec(), 5).unwrap();
    assert_eq!(n, 21 + 3);
}

#[test]
fn flush_writes_exactly_the_drained_pairs() {
    let mut lsm = fresh(2);
    lsm.put(b"p".to_vec(), 4).unwrap();
    lsm.put(b"j".to_vec(), 7).unwrap();
    // At capacity: this put flushes {"j": 7, "p": 4} before inserting "b".
    lsm.put(b"b".to_vec(), 10).unwrap();
    assert_eq!(lsm.storage.files.len(), 1);
    assert_eq!(lsm.tables, vec![0]);
    assert_eq!(lsm.storage.files[0].id, 0);
    // The new table holds exactly the drained pairs, ascending by key.
    let table = lsmkv::sstable::sst_decode_exec(&lsm.storage.files[0].bytes).unwrap();
    assert_eq!(table.len(), 2);
    assert_eq!(table[0].key, b"j".to_vec());
    assert_eq!(table[0].value, 7);
    assert_eq!(table[1].key, b"p".to_vec());
    assert_eq!(table[1].value, 4);
    // The log holds only the new record, which replays to {"b": 10}.
    let (mt, used) = lsmkv::wal::replay(&lsm.storage.wal);
    assert_eq!(used, lsm.storage.wal.len());
    assert_eq!(mt.size(), 1);
    assert_eq!(mt.lookup(&b"b".to_vec()), Some(10));
    // The manifest decodes to the catalog.
    let ids = lsmkv::manifest::man_decode_exec(lsm.storage.manifest.as_ref().unwrap()).unwrap();
    assert_eq!(ids, lsm.tables);
}

#[test]
fn put_without_flush_leaves_tables_alone() {
    let mut lsm = fresh(2);
    lsm.put(b"a".to_vec(), 1).unwrap();
    lsm.put(b"b".to_vec(), 2).unwrap();
    lsm.put(b"c".to_vec(), 3).unwrap();
    let files_before: Vec<Vec<u8>> = lsm.storage.files.iter().map(|f| f.bytes.clone()).collect();
    let manifest_before = lsm.storage.manifest.clone();
    let wal_before = lsm.storage.wal.clone();
    // One entry in the memtable, capacity 2: no flush runs.
    let n = lsm.put(b"d".to_vec(), 4).unwrap();
    let files_after: Vec<Vec<u8>> = lsm.storage.files.iter().map(|f| f.bytes.clone()).collect();
    assert_eq!(files_after, files_before);
    assert_eq!(lsm.storage.manifest, manifest_before);
    // The log only grew, by exactly the one record.
    assert_eq!(lsm.storage.wal.len(), wal_before.len() + n);
    assert_eq!(&lsm.storage.wal[..wal_before.len()], &wal_before[..]);
}
