use vstd::prelude::*;
use crate::LsmError;
use crate::checksum::compute_record_crc;
use crate::entries::{
    EntryG, Probe, entries_view, find_entry, has_key, kv_at, lemma_bounded_absent,
    lemma_kv_at_point, lemma_sorted_unique,
};
use crate::manifest::{man_dec, man_decode_exec, man_encode};
use crate::memtable::Memtable;
use crate::sstable::{sst_dec, sst_decode_exec, sst_encode};
use crate::wal::{
    RecG, encode_record, lemma_replay_extend, lemma_replay_prefix, rec_crc_ok, rec_enc, replay,
    replay_acc, replay_map, replay_used, wal_apply, wal_dec, wal_record_bytes,
};

verus! {

/// One immutable table file: its identifier and its bytes.
pub struct TableFile {
    pub id: u64,
    pub bytes: Vec<u8>,
}

/// Everything the engine keeps durable, modelled as in-memory bytes; the
/// code around the library moves these buffers to and from disk.
pub struct Storage {
    pub wal: Vec<u8>,
    pub manifest: Option<Vec<u8>>,
    pub files: Vec<TableFile>,
}

impl Storage {
    /// Storage with no catalog, no log and no table files.
    pub fn new() -> (r: Storage)
        ensures
            r.wal@.len() == 0,
            r.manifest is None,
            r.files@.len() == 0,
    {
        Storage { wal: Vec::new(), manifest: None, files: Vec::new() }
    }
}

/// The bytes of the table file named id: the first match from the front.
pub open spec fn file_bytes(files: Seq<TableFile>, id: u64) -> Option<Seq<u8>>
    decreases files.len(),
{
    if files.len() == 0 {
        None
    } else if files[0].id == id {
        Some(files[0].bytes@)
    } else {
        file_bytes(files.skip(1), id)
    }
}

/// The decoded table named id, when its file exists and decodes.
pub open spec fn table_at(files: Seq<TableFile>, id: u64) -> Option<Seq<EntryG>> {
    match file_bytes(files, id) {
        Some(b) => sst_dec(b),
        None => None,
    }
}

/// Scans the catalogued tables newest-first for the key: the first table
/// holding it answers; a missing or undecodable file fails the lookup.
pub open spec fn scan(files: Seq<TableFile>, ids: Seq<u64>, k: Seq<u8>) -> Result<
    Option<u64>,
    LsmError,
>
    decreases ids.len(),
{
    if ids.len() == 0 {
        Ok(None)
    } else {
        match file_bytes(files, ids.last()) {
            None => Err(LsmError::TableMissing),
            Some(bytes) => match sst_dec(bytes) {
                None => Err(LsmError::TableCorrupt),
                Some(es) => match kv_at(es, k) {
                    Some(v) => Ok(Some(v)),
                    None => scan(files, ids.drop_last(), k),
                },
            },
        }
    }
}

/// A name no file carries has no bytes.
pub proof fn lemma_file_bytes_absent(files: Seq<TableFile>, id: u64)
    requires
        forall|i: int| 0 <= i < files.len() ==> (#[trigger] files[i]).id != id,
    ensures
        file_bytes(files, id) is None,
    decreases files.len(),
{
    if files.len() > 0 {
        assert(files[0].id != id);
        assert forall|i: int| 0 <= i < files.skip(1).len() implies (#[trigger] files.skip(1)[i]).id
            != id by {
            assert(files.skip(1)[i] == files[i + 1]);
        }
        lemma_file_bytes_absent(files.skip(1), id);
    }
}

/// Appending a file leaves every other name's bytes as they were, and
/// gives the new name its bytes when the name was free.
pub proof fn lemma_file_bytes_push(files: Seq<TableFile>, f: TableFile, id: u64)
    ensures
        file_bytes(files.push(f), id) == (if file_bytes(files, id) is Some {
            file_bytes(files, id)
        } else if f.id == id {
            Some(f.bytes@)
        } else {
            None
        }),
    decreases files.len(),
{
    if files.len() == 0 {
        assert(files.push(f).len() == 1);
        assert(files.push(f)[0] == f);
        assert(files.push(f).skip(1) =~= Seq::<TableFile>::empty());
        assert(file_bytes(files, id) is None);
        assert(file_bytes(Seq::<TableFile>::empty(), id) is None);
        if f.id == id {
            assert(file_bytes(files.push(f), id) == Some(f.bytes@));
        } else {
            assert(file_bytes(files.push(f), id) == file_bytes(files.push(f).skip(1), id));
        }
    } else {
        assert(files.push(f)[0] == files[0]);
        assert(files.push(f).skip(1) =~= files.skip(1).push(f));
        lemma_file_bytes_push(files.skip(1), f, id);
        if files[0].id == id {
            assert(file_bytes(files.push(f), id) == Some(files[0].bytes@));
            assert(file_bytes(files, id) == Some(files[0].bytes@));
        } else {
            assert(file_bytes(files.push(f), id) == file_bytes(files.skip(1).push(f), id));
            assert(file_bytes(files, id) == file_bytes(files.skip(1), id));
        }
    }
}

/// A scan does not see a pushed file that none of the ids name.
pub proof fn lemma_scan_push(files: Seq<TableFile>, f: TableFile, ids: Seq<u64>, k: Seq<u8>)
    requires
        forall|i: int| 0 <= i < ids.len() ==> #[trigger] ids[i] != f.id,
    ensures
        scan(files.push(f), ids, k) == scan(files, ids, k),
    decreases ids.len(),
{
    if ids.len() > 0 {
        assert(ids[ids.len() - 1] != f.id);
        lemma_file_bytes_push(files, f, ids.last());
        assert forall|i: int| 0 <= i < ids.drop_last().len() implies #[trigger] ids.drop_last()[i]
            != f.id by {
            assert(ids.drop_last()[i] == ids[i]);
        }
        lemma_scan_push(files, f, ids.drop_last(), k);
    }
}

/// When every catalogued table is present and decodes, a scan cannot fail.
pub proof fn lemma_scan_ok(files: Seq<TableFile>, ids: Seq<u64>, k: Seq<u8>)
    requires
        forall|i: int| 0 <= i < ids.len() ==> table_at(files, #[trigger] ids[i]) is Some,
    ensures
        scan(files, ids, k) is Ok,
    decreases ids.len(),
{
    if ids.len() > 0 {
        assert(table_at(files, ids[ids.len() - 1]) is Some);
        assert forall|i: int| 0 <= i < ids.drop_last().len() implies table_at(
            files,
            #[trigger] ids.drop_last()[i],
        ) is Some by {
            assert(ids.drop_last()[i] == ids[i]);
        }
        lemma_scan_ok(files, ids.drop_last(), k);
    }
}

/// The log-structured merge engine: a sorted in-memory buffer in front of
/// immutable sorted tables, with a write-ahead log for crash recovery and
/// a manifest cataloguing the tables.
pub struct Lsm {
    pub memtable: Memtable,
    pub capacity: usize,
    pub next_id: u64,
    pub tables: Vec<u64>,
    pub storage: Storage,
}

impl Lsm {
    /// The manifest records exactly the in-memory catalog.
    pub open spec fn manifest_ok(self) -> bool {
        match self.storage.manifest {
            None => self.tables@.len() == 0,
            Some(b) => man_dec(b@) == Some(self.tables@),
        }
    }

    /// Every identifier in use lies below the next fresh one.
    pub open spec fn ids_fresh(self) -> bool {
        self.next_id < u64::MAX ==> {
            &&& forall|i: int|
                0 <= i < self.storage.files@.len() ==> (#[trigger] self.storage.files@[i]).id
                    < self.next_id
            &&& forall|i: int| 0 <= i < self.tables@.len() ==> (#[trigger] self.tables@[i]) < self.next_id
        }
    }

    /// The engine's invariant: a sorted buffer, a log that replays exactly
    /// to it, and a manifest that matches the catalog.
    pub open spec fn wf(self) -> bool {
        &&& self.memtable.wf()
        &&& replay_map(self.storage.wal@) == self.memtable.as_map()
        &&& replay_used(self.storage.wal@) == self.storage.wal@.len()
        &&& self.manifest_ok()
        &&& self.ids_fresh()
    }

    /// Every table the catalog names is present and decodes.
    pub open spec fn tables_valid(self) -> bool {
        forall|i: int|
            0 <= i < self.tables@.len() ==> table_at(
                self.storage.files@,
                #[trigger] self.tables@[i],
            ) is Some
    }

    /// What a lookup returns: the memtable first, the tables newest-first.
    pub open spec fn get_spec(self, k: Seq<u8>) -> Result<Option<u64>, LsmError> {
        if self.memtable.as_map().contains_key(k) {
            Ok(Some(self.memtable.as_map()[k]))
        } else {
            scan(self.storage.files@, self.tables@, k)
        }
    }

    /// The key-value mapping the engine holds, read through get_spec.
    pub open spec fn model_at(self, k: Seq<u8>) -> Option<u64> {
        match self.get_spec(k) {
            Ok(o) => o,
            Err(_) => None,
        }
    }

    /// A sound engine's lookup returns its model.
    pub proof fn lemma_get_model(self, k: Seq<u8>)
        requires
            self.wf(),
            self.tables_valid(),
        ensures
            self.get_spec(k) == Ok::<Option<u64>, LsmError>(self.model_at(k)),
    {
        if !self.memtable.as_map().contains_key(k) {
            lemma_scan_ok(self.storage.files@, self.tables@, k);
        }
    }

    /// The relation open establishes between the storage it was given and
    /// the engine it returns.
    pub open spec fn open_ok(st: Storage, capacity: usize, e: Lsm) -> bool {
        &&& e.wf()
        &&& e.capacity == capacity
        &&& e.memtable.as_map() == replay_map(st.wal@)
        &&& e.storage.files@ == st.files@
        &&& e.storage.manifest == st.manifest
        &&& e.storage.wal@ == st.wal@.subrange(0, replay_used(st.wal@))
        &&& match st.manifest {
            None => e.tables@.len() == 0,
            Some(b) => man_dec(b@) == Some(e.tables@),
        }
    }

    /// Opens the engine against the given durable state: loads the catalog
    /// (fatal when it does not decode), replays the log into a fresh
    /// memtable (best effort, never fatal), and drops any torn log tail.
    pub fn open(storage: Storage, capacity: usize) -> (r: Result<Lsm, LsmError>)
        ensures
            (r is Err) <==> (storage.manifest matches Some(b) && man_dec(b@) is None),
            r matches Err(er) ==> er == LsmError::ManifestCorrupt,
            r matches Ok(e) ==> Lsm::open_ok(storage, capacity, e),
    {
        let tables: Vec<u64> = match &storage.manifest {
            None => Vec::new(),
            Some(mb) => match man_decode_exec(mb) {
                None => {
                    return Err(LsmError::ManifestCorrupt);
                },
                Some(v) => v,
            },
        };
        let (memtable, used) = replay(&storage.wal);
        let mut st = storage;
        st.wal.truncate(used);
        proof {
            lemma_replay_prefix(storage.wal@, Map::<Seq<u8>, u64>::empty());
        }
        let mut nid: u64 = 0;
        let mut i: usize = 0;
        while i < st.files.len()
            invariant
                i <= st.files@.len(),
                nid == u64::MAX || forall|j: int|
                    0 <= j < i ==> (#[trigger] st.files@[j]).id < nid,
            decreases st.files@.len() - i,
        {
            let id = st.files[i].id;
            if id == u64::MAX {
                nid = u64::MAX;
            } else if id + 1 > nid {
                nid = id + 1;
            }
            i = i + 1;
        }
        let mut t: usize = 0;
        while t < tables.len()
            invariant
                t <= tables@.len(),
                nid == u64::MAX || {
                    &&& forall|j: int|
                        0 <= j < st.files@.len() ==> (#[trigger] st.files@[j]).id < nid
                    &&& forall|j: int| 0 <= j < t ==> (#[trigger] tables@[j]) < nid
                },
            decreases tables@.len() - t,
        {
            let id = tables[t];
            if id == u64::MAX {
                nid = u64::MAX;
            } else if id + 1 > nid {
                nid = id + 1;
            }
            t = t + 1;
        }
        let e = Lsm { memtable, capacity, next_id: nid, tables, storage: st };
        Ok(e)
    }

    /// Drains the memtable into a new table file, records it in the
    /// catalog and the manifest, and empties the log: its content is now
    /// durable inside the new table.
    fn flush(&mut self)
        requires
            old(self).wf(),
            old(self).next_id < u64::MAX,
        ensures
            final(self).wf(),
            final(self).capacity == old(self).capacity,
            final(self).memtable.as_map() == Map::<Seq<u8>, u64>::empty(),
            final(self).memtable.entries@.len() == 0,
            final(self).tables@ == old(self).tables@.push(old(self).next_id),
            final(self).next_id == old(self).next_id + 1,
            final(self).storage.wal@.len() == 0,
            final(self).storage.manifest is Some,
            final(self).storage.files@.len() == old(self).storage.files@.len() + 1,
            final(self).storage.files@.subrange(0, old(self).storage.files@.len() as int) == old(
                self,
            ).storage.files@,
            final(self).storage.files@.last().id == old(self).next_id,
            table_at(final(self).storage.files@, old(self).next_id) == Some(
                old(self).memtable.rep(),
            ),
            forall|k2: Seq<u8>| #[trigger]
                final(self).model_at(k2) == old(self).model_at(k2),
            old(self).tables_valid() ==> final(self).tables_valid(),
    {
        let ghost pre = *self;
        let drained = self.memtable.drain();
        let bytes = sst_encode(&drained);
        let id = self.next_id;
        self.storage.files.push(TableFile { id, bytes });
        self.tables.push(id);
        let mb = man_encode(&self.tables);
        self.storage.manifest = Some(mb);
        self.storage.wal = Vec::new();
        self.next_id = id + 1;
        proof {
            let files_new = self.storage.files@;
            let files_old = pre.storage.files@;
            let rep = pre.memtable.rep();
            let newf = TableFile { id, bytes };
            assert(files_new == files_old.push(newf));
            assert(files_new.subrange(0, files_old.len() as int) =~= files_old);
            assert(files_new.last() == newf);
            assert(newf.bytes@ == bytes@);
            // The fresh name was free, so the new file answers for it.
            assert forall|j: int| 0 <= j < files_old.len() implies (#[trigger] files_old[j]).id
                != id by {}
            lemma_file_bytes_absent(files_old, id);
            lemma_file_bytes_push(files_old, newf, id);
            assert(file_bytes(files_new, id) == Some(bytes@));
            assert(table_at(files_new, id) == Some(rep));
            // Old names keep their bytes.
            assert forall|t2: u64| t2 != id implies file_bytes(files_new, t2) == file_bytes(
                files_old,
                t2,
            ) by {
                lemma_file_bytes_push(files_old, newf, t2);
            }
            // The log is empty and replays to the now empty memtable.
            assert(replay_map(self.storage.wal@) =~= self.memtable.as_map());
            // Well-formed again.
            assert(self.wf());
            // Every lookup answers as before the flush.
            assert(self.tables@.drop_last() =~= pre.tables@);
            lemma_sorted_unique(rep);
            assert forall|k2: Seq<u8>| #[trigger] self.model_at(k2) == pre.model_at(k2) by {
                assert(!self.memtable.as_map().contains_key(k2));
                let ids_new = self.tables@;
                assert(ids_new.last() == id);
                match kv_at(rep, k2) {
                    Some(v) => {
                        assert(scan(files_new, ids_new, k2) == Ok::<Option<u64>, LsmError>(
                            Some(v),
                        ));
                        assert(has_key(rep, k2));
                        assert(pre.memtable.as_map().contains_key(k2));
                        assert(pre.memtable.as_map()[k2] == v);
                        assert(pre.get_spec(k2) == Ok::<Option<u64>, LsmError>(Some(v)));
                    },
                    None => {
                        assert(!has_key(rep, k2));
                        assert(!pre.memtable.as_map().contains_key(k2));
                        assert(scan(files_new, ids_new, k2) == scan(
                            files_new,
                            pre.tables@,
                            k2,
                        ));
                        lemma_scan_push(files_old, newf, pre.tables@, k2);
                        assert(scan(files_new, pre.tables@, k2) == scan(
                            files_old,
                            pre.tables@,
                            k2,
                        ));
                    },
                }
            }
            // Soundness of the catalog is kept.
            if pre.tables_valid() {
                assert forall|i: int| 0 <= i < self.tables@.len() implies table_at(
                    files_new,
                    #[trigger] self.tables@[i],
                ) is Some by {
                    if i < pre.tables@.len() {
                        assert(self.tables@[i] == pre.tables@[i]);
                        assert(pre.tables@[i] != id);
                        assert(table_at(files_old, pre.tables@[i]) is Some);
                    } else {
                        assert(self.tables@[i] == id);
                    }
                }
            }
        }
    }

    /// The relation a successful put establishes.
    pub open spec fn put_ok(pre: Lsm, post: Lsm, k: Seq<u8>, v: u64) -> bool {
        &&& post.wf()
        &&& post.capacity == pre.capacity
        &&& forall|k2: Seq<u8>| #[trigger]
            post.model_at(k2) == (if k2 == k {
                Some(v)
            } else {
                pre.model_at(k2)
            })
        &&& (pre.tables_valid() ==> post.tables_valid())
        &&& post.memtable.as_map() == (if pre.memtable.entries@.len() >= pre.capacity {
            Map::<Seq<u8>, u64>::empty()
        } else {
            pre.memtable.as_map()
        }).insert(k, v)
        &&& post.tables@ == (if pre.memtable.entries@.len() >= pre.capacity {
            pre.tables@.push(pre.next_id)
        } else {
            pre.tables@
        })
        &&& (pre.memtable.entries@.len() >= pre.capacity ==> {
            &&& post.next_id == pre.next_id + 1
            &&& post.storage.files@.len() == pre.storage.files@.len() + 1
            &&& post.storage.files@.subrange(0, pre.storage.files@.len() as int)
                == pre.storage.files@
            &&& post.storage.files@.last().id == pre.next_id
            &&& table_at(post.storage.files@, pre.next_id) == Some(pre.memtable.rep())
            &&& post.storage.manifest is Some
            &&& post.storage.wal@ == wal_record_bytes(k, v)
        })
        &&& (pre.memtable.entries@.len() < pre.capacity ==> {
            &&& post.next_id == pre.next_id
            &&& post.storage.files@ == pre.storage.files@
            &&& post.storage.manifest == pre.storage.manifest
            &&& post.storage.wal@ == pre.storage.wal@ + wal_record_bytes(k, v)
        })
    }

    /// Stores the pair. When the buffer is at capacity it is flushed to a
    /// new table first; the record is appended durably to the log before
    /// the buffer takes it. Returns the log bytes written.
    pub fn put(&mut self, key: Vec<u8>, value: u64) -> (r: Result<usize, LsmError>)
        requires
            old(self).wf(),
        ensures
            (r is Err) <==> (old(self).memtable.entries@.len() >= old(self).capacity && old(
                self,
            ).next_id == u64::MAX),
            r matches Err(er) ==> er == LsmError::CatalogFull && *final(self) == *old(self),
            r matches Ok(n) ==> n as int == 21 + key@.len() && Lsm::put_ok(
                *old(self),
                *final(self),
                key@,
                value,
            ),
    {
        if self.memtable.size() >= self.capacity {
            if self.next_id == u64::MAX {
                return Err(LsmError::CatalogFull);
            }
            self.flush();
        }
        let ghost mid = *self;
        let crc = compute_record_crc(false, &key, value);
        let mut rec = encode_record(crc, false, &key, value);
        let n = rec.len();
        let ghost rec_view = rec@;
        self.storage.wal.append(&mut rec);
        proof {
            let w = mid.storage.wal@;
            lemma_replay_extend(w, rec_view, Map::<Seq<u8>, u64>::empty());
            let recg = RecG { crc: crc as nat, tombstone: false, key: key@, value };
            assert(wal_dec(rec_view) == Some((recg, rec_view.len() as int)));
            assert(rec_crc_ok(recg));
            let tail = rec_view.skip(rec_view.len() as int);
            assert(tail =~= Seq::<u8>::empty());
            assert(wal_dec(tail) is None);
            let applied = wal_apply(mid.memtable.as_map(), recg);
            assert(applied == mid.memtable.as_map().insert(key@, value));
            assert(replay_acc(tail, applied) == applied);
            assert(replay_used(tail) == 0);
            assert(replay_acc(rec_view, mid.memtable.as_map()) == replay_acc(tail, applied));
            assert(replay_used(rec_view) == rec_view.len() as int + replay_used(tail));
            assert(replay_map(self.storage.wal@) == mid.memtable.as_map().insert(key@, value));
            assert(replay_used(self.storage.wal@) == self.storage.wal@.len());
            assert(rec_view == rec_enc(crc as nat, false, key@, value));
            assert(rec_view == wal_record_bytes(key@, value));
            assert(self.storage.wal@ == mid.storage.wal@ + rec_view);
            if old(self).memtable.entries@.len() >= old(self).capacity {
                assert(mid.storage.wal@.len() == 0);
                assert(mid.storage.wal@ + rec_view =~= rec_view);
            }
        }
        self.memtable.insert(key, value);
        proof {
            assert(self.wf());
            assert forall|k2: Seq<u8>| #[trigger] self.model_at(k2) == (if k2 == key@ {
                Some(value)
            } else {
                mid.model_at(k2)
            }) by {
                if k2 == key@ {
                    assert(self.memtable.as_map().contains_key(k2));
                    assert(self.memtable.as_map()[k2] == value);
                } else {
                    if mid.memtable.as_map().contains_key(k2) {
                        assert(self.memtable.as_map().contains_key(k2));
                        assert(self.memtable.as_map()[k2] == mid.memtable.as_map()[k2]);
                    } else {
                        assert(!self.memtable.as_map().contains_key(k2));
                        assert(self.storage.files@ == mid.storage.files@);
                        assert(self.tables@ == mid.tables@);
                    }
                }
            }
        }
        Ok(n)
    }

    /// Looks the key up: the memtable answers first, the catalogued tables
    /// newest to oldest after it.
    pub fn get(&self, key: &Vec<u8>) -> (r: Result<Option<u64>, LsmError>)
        requires
            self.wf(),
        ensures
            r == self.get_spec(key@),
    {
        match self.memtable.lookup(key) {
            Some(v) => {
                return Ok(Some(v));
            },
            None => {},
        }
        let mut i = self.tables.len();
        proof {
            assert(self.tables@.subrange(0, i as int) =~= self.tables@);
        }
        while i > 0
            invariant
                i <= self.tables@.len(),
                self.wf(),
                !self.memtable.as_map().contains_key(key@),
                scan(self.storage.files@, self.tables@, key@) == scan(
                    self.storage.files@,
                    self.tables@.subrange(0, i as int),
                    key@,
                ),
            decreases i,
        {
            i = i - 1;
            let id = self.tables[i];
            let ghost ids_cur = self.tables@.subrange(0, i + 1);
            proof {
                assert(ids_cur.last() == id);
                assert(ids_cur.drop_last() =~= self.tables@.subrange(0, i as int));
            }
            match find_file(&self.storage.files, id) {
                None => {
                    return Err(LsmError::TableMissing);
                },
                Some(fb) => {
                    match sst_decode_exec(fb) {
                        None => {
                            return Err(LsmError::TableCorrupt);
                        },
                        Some(tv) => {
                            let ghost es = entries_view(tv@);
                            proof {
                                lemma_sorted_unique(es);
                            }
                            match find_entry(&tv, key) {
                                Probe::Found(j) => {
                                    proof {
                                        lemma_kv_at_point(es, key@, j as int);
                                    }
                                    return Ok(Some(tv[j].value));
                                },
                                Probe::Missing(j) => {
                                    proof {
                                        lemma_bounded_absent(es, key@, j as int);
                                    }
                                },
                            }
                        },
                    }
                },
            }
        }
        proof {
            assert(self.tables@.subrange(0, 0) =~= Seq::<u64>::empty());
        }
        Ok(None)
    }
}

/// Finds the table file carrying the given name.
fn find_file(files: &Vec<TableFile>, id: u64) -> (r: Option<&Vec<u8>>)
    ensures
        match r {
            None => file_bytes(files@, id) is None,
            Some(b) => file_bytes(files@, id) == Some(b@),
        },
{
    let mut i: usize = 0;
    proof {
        assert(files@.skip(0) =~= files@);
    }
    while i < files.len()
        invariant
            i <= files@.len(),
            file_bytes(files@, id) == file_bytes(files@.skip(i as int), id),
        decreases files@.len() - i,
    {
        proof {
            assert(files@.skip(i as int)[0] == files@[i as int]);
        }
        if files[i].id == id {
            return Some(&files[i].bytes);
        }
        proof {
            assert(files@.skip(i as int).skip(1) =~= files@.skip(i + 1));
        }
        i = i + 1;
    }
    None
}

} // verus!
