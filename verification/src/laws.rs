use vstd::prelude::*;
use crate::LsmError;
use crate::engine::{Lsm, Storage, scan};
use crate::manifest::man_dec;
use crate::wal::{lemma_replay_extend, replay_map, replay_used, wal_dec, wal_stops};

verus! {

/// Read after write: after a successful put of (k, v), a lookup of k on an
/// engine whose tables are sound answers v.
pub proof fn law_read_after_write(pre: Lsm, post: Lsm, k: Seq<u8>, v: u64)
    requires
        Lsm::put_ok(pre, post, k, v),
        post.tables_valid(),
    ensures
        post.get_spec(k) == Ok::<Option<u64>, LsmError>(Some(v)),
{
    post.lemma_get_model(k);
    assert(post.model_at(k) == Some(v));
}

/// Overwrite: two puts of the same key keep only the later value, whether
/// or not a flush lay between them.
pub proof fn law_overwrite(pre: Lsm, mid: Lsm, post: Lsm, k: Seq<u8>, v1: u64, v2: u64)
    requires
        Lsm::put_ok(pre, mid, k, v1),
        Lsm::put_ok(mid, post, k, v2),
        post.tables_valid(),
    ensures
        post.get_spec(k) == Ok::<Option<u64>, LsmError>(Some(v2)),
{
    post.lemma_get_model(k);
    assert(post.model_at(k) == Some(v2));
}

/// The freshest value wins: however many older tables hold the key, a key
/// the memtable holds is answered from the memtable.
pub proof fn law_memtable_wins(e: Lsm, k: Seq<u8>)
    requires
        e.memtable.as_map().contains_key(k),
    ensures
        e.get_spec(k) == Ok::<Option<u64>, LsmError>(Some(e.memtable.as_map()[k])),
{
}

/// Absence: an engine opened on empty storage answers none for every key.
pub proof fn law_absence(st: Storage, capacity: usize, e: Lsm, k: Seq<u8>)
    requires
        st.wal@.len() == 0,
        st.manifest is None,
        Lsm::open_ok(st, capacity, e),
    ensures
        e.get_spec(k) == Ok::<Option<u64>, LsmError>(None),
{
    assert(wal_dec(st.wal@) is None);
    assert(replay_map(st.wal@) =~= Map::<Seq<u8>, u64>::empty());
    assert(!e.memtable.as_map().contains_key(k));
    assert(e.tables@.len() == 0);
    assert(scan(e.storage.files@, e.tables@, k) == Ok::<Option<u64>, LsmError>(None));
}

/// Flush durability: the put that triggered a flush keeps every other key
/// readable, though the memtable no longer holds it; the catalog records
/// the new table.
pub proof fn law_flush_durability(pre: Lsm, post: Lsm, k: Seq<u8>, v: u64, k2: Seq<u8>)
    requires
        Lsm::put_ok(pre, post, k, v),
        pre.memtable.entries@.len() >= pre.capacity,
        post.tables_valid(),
        k2 != k,
    ensures
        post.get_spec(k2) == Ok::<Option<u64>, LsmError>(pre.model_at(k2)),
        post.tables@ == pre.tables@.push(pre.next_id),
        crate::engine::table_at(post.storage.files@, pre.next_id) == Some(pre.memtable.rep()),
        !post.memtable.as_map().contains_key(k2),
{
    post.lemma_get_model(k2);
    assert(post.model_at(k2) == pre.model_at(k2));
    assert(post.memtable.as_map() == Map::<Seq<u8>, u64>::empty().insert(k, v));
}

/// Crash recovery: reopening an engine's durable state, with no clean
/// shutdown, recovers its whole mapping; the memtable is rebuilt from the
/// log, the catalog from the manifest.
pub proof fn law_crash_recovery(e: Lsm, capacity: usize, e2: Lsm, k: Seq<u8>)
    requires
        e.wf(),
        Lsm::open_ok(e.storage, capacity, e2),
    ensures
        e2.memtable.as_map() == e.memtable.as_map(),
        e2.tables@ == e.tables@,
        e2.model_at(k) == e.model_at(k),
        e.tables_valid() ==> e2.tables_valid(),
{
    assert(e2.memtable.as_map() == replay_map(e.storage.wal@));
    match e.storage.manifest {
        None => {
            assert(e2.tables@ =~= e.tables@);
        },
        Some(b) => {
            assert(man_dec(b@) == Some(e.tables@));
            assert(man_dec(b@) == Some(e2.tables@));
        },
    }
    assert(e2.storage.files@ == e.storage.files@);
    assert(e2.get_spec(k) == e.get_spec(k));
    if e.tables_valid() {
        assert forall|i: int| 0 <= i < e2.tables@.len() implies crate::engine::table_at(
            e2.storage.files@,
            #[trigger] e2.tables@[i],
        ) is Some by {
            assert(crate::engine::table_at(e.storage.files@, e.tables@[i]) is Some);
        }
    }
}

/// Torn tail tolerance: damage at the log's tail loses only the records
/// from the damage on; replay still recovers the whole intact prefix.
pub proof fn law_torn_tail(intact: Seq<u8>, torn: Seq<u8>)
    requires
        replay_used(intact) == intact.len(),
        wal_stops(torn),
    ensures
        replay_map(intact + torn) == replay_map(intact),
        replay_used(intact + torn) == intact.len(),
{
    lemma_replay_extend(intact, torn, Map::<Seq<u8>, u64>::empty());
}

} // verus!
