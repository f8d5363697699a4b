use vstd::prelude::*;
use crate::bytes::{
    copy_range, le_bytes, le_val, lemma_le_bytes_len, lemma_le_val_bound, lemma_le_val_le_bytes,
    lemma_pow256_unfold8, push_le, read_le,
};
use crate::checksum::{compute_record_crc, record_crc};
use crate::memtable::Memtable;

verus! {

/// A log record as the specification sees it.
pub struct RecG {
    pub crc: nat,
    pub tombstone: bool,
    pub key: Seq<u8>,
    pub value: u64,
}

/// Decodes one record from the front of b: a 4-byte checksum, a tombstone
/// flag, an 8-byte key length, the key, and an 8-byte value. Returns the
/// record and the number of bytes it occupies, or None when the bytes do
/// not form a whole record.
pub open spec fn wal_dec(b: Seq<u8>) -> Option<(RecG, int)> {
    if b.len() < 21 {
        None
    } else {
        let klen = le_val(b.subrange(5, 13)) as int;
        if b[4] > 1 {
            None
        } else if 21 + klen > b.len() {
            None
        } else {
            Some(
                (
                    RecG {
                        crc: le_val(b.subrange(0, 4)),
                        tombstone: b[4] == 1,
                        key: b.subrange(13, 13 + klen),
                        value: le_val(b.subrange(13 + klen, 21 + klen)) as u64,
                    },
                    21 + klen,
                ),
            )
        }
    }
}

/// The record carries the checksum its content requires.
pub open spec fn rec_crc_ok(r: RecG) -> bool {
    r.crc == record_crc(r.tombstone, r.key, r.value) as nat
}

/// The effect of one replayed record on the reconstruction map.
pub open spec fn wal_apply(m: Map<Seq<u8>, u64>, r: RecG) -> Map<Seq<u8>, u64> {
    if r.tombstone {
        m.remove(r.key)
    } else {
        m.insert(r.key, r.value)
    }
}

/// Replays records from the front of b onto acc, stopping at the first
/// record that fails to decode or fails its checksum.
pub open spec fn replay_acc(b: Seq<u8>, acc: Map<Seq<u8>, u64>) -> Map<Seq<u8>, u64>
    decreases b.len(),
{
    match wal_dec(b) {
        Some((r, n)) => if rec_crc_ok(r) && 21 <= n <= b.len() {
            replay_acc(b.skip(n), wal_apply(acc, r))
        } else {
            acc
        },
        None => acc,
    }
}

/// The number of bytes replay consumes before it stops.
pub open spec fn replay_used(b: Seq<u8>) -> int
    decreases b.len(),
{
    match wal_dec(b) {
        Some((r, n)) => if rec_crc_ok(r) && 21 <= n <= b.len() {
            n + replay_used(b.skip(n))
        } else {
            0
        },
        None => 0,
    }
}

/// The mapping a replay of b reconstructs from nothing.
pub open spec fn replay_map(b: Seq<u8>) -> Map<Seq<u8>, u64> {
    replay_acc(b, Map::empty())
}

/// Replay halts at once on these bytes: they hold no whole record, or the
/// first record fails its checksum.
pub open spec fn wal_stops(b: Seq<u8>) -> bool {
    match wal_dec(b) {
        Some((r, n)) => !rec_crc_ok(r),
        None => true,
    }
}

/// The bytes of one log record carrying the given checksum: the checksum,
/// the tombstone flag, the key length, the key, the value.
pub open spec fn rec_enc(crc: nat, tombstone: bool, k: Seq<u8>, v: u64) -> Seq<u8> {
    le_bytes(crc, 4) + seq![if tombstone { 1u8 } else { 0u8 }] + le_bytes(k.len(), 8) + k
        + le_bytes(v as nat, 8)
}

/// The bytes one put appends to the log for the pair (k, v).
pub open spec fn wal_record_bytes(k: Seq<u8>, v: u64) -> Seq<u8> {
    rec_enc(record_crc(false, k, v) as nat, false, k, v)
}

/// Decoding a record looks only at the record's own bytes.
pub proof fn lemma_wal_dec_agree(b: Seq<u8>, c: Seq<u8>, r: RecG, n: int)
    requires
        wal_dec(b) == Some((r, n)),
        c.len() >= n,
        c.subrange(0, n) == b.subrange(0, n),
    ensures
        wal_dec(c) == Some((r, n)),
{
    assert(b.len() >= 21);
    assert(21 + le_val(b.subrange(5, 13)) as int <= b.len());
    assert(n == 21 + le_val(b.subrange(5, 13)) as int);
    assert(n <= b.len());
    assert forall|t: int| 0 <= t < n implies c[t] == b[t] by {
        assert(c.subrange(0, n).len() == n);
        assert(c.subrange(0, n) == b.subrange(0, n));
        assert(c.subrange(0, n)[t] == c[t]);
        assert(b.subrange(0, n)[t] == b[t]);
        assert(c.subrange(0, n)[t] == b.subrange(0, n)[t]);
    }
    let klen = le_val(b.subrange(5, 13)) as int;
    assert(n == 21 + klen);
    assert(c.subrange(0, 4) =~= b.subrange(0, 4));
    assert(c.subrange(5, 13) =~= b.subrange(5, 13));
    assert(c[4] == b[4]);
    assert(c.subrange(13, 13 + klen) =~= b.subrange(13, 13 + klen));
    assert(c.subrange(13 + klen, 21 + klen) =~= b.subrange(13 + klen, 21 + klen));
}

/// After bytes that replay consumes whole, replaying an extension carries
/// the run on from where the prefix left it.
pub proof fn lemma_replay_extend(w: Seq<u8>, ext: Seq<u8>, acc: Map<Seq<u8>, u64>)
    requires
        replay_used(w) == w.len(),
    ensures
        replay_acc(w + ext, acc) == replay_acc(ext, replay_acc(w, acc)),
        replay_used(w + ext) == w.len() + replay_used(ext),
    decreases w.len(),
{
    if w.len() == 0 {
        assert(w + ext =~= ext);
    } else {
        match wal_dec(w) {
            Some((r, n)) => {
                if rec_crc_ok(r) && 21 <= n <= w.len() {
                    assert forall|t: int| 0 <= t < n implies (w + ext)[t] == w[t] by {}
                    assert((w + ext).subrange(0, n) =~= w.subrange(0, n));
                    lemma_wal_dec_agree(w, w + ext, r, n);
                    assert((w + ext).skip(n) =~= w.skip(n) + ext);
                    assert(replay_used(w.skip(n)) == w.skip(n).len());
                    lemma_replay_extend(w.skip(n), ext, wal_apply(acc, r));
                } else {
                    assert(replay_used(w) == 0);
                    assert(false);
                }
            },
            None => {
                assert(replay_used(w) == 0);
                assert(false);
            },
        }
    }
}

/// Replaying just the consumed prefix gives the same result and consumes
/// the whole prefix.
pub proof fn lemma_replay_prefix(w: Seq<u8>, acc: Map<Seq<u8>, u64>)
    ensures
        0 <= replay_used(w) <= w.len(),
        replay_acc(w.subrange(0, replay_used(w)), acc) == replay_acc(w, acc),
        replay_used(w.subrange(0, replay_used(w))) == replay_used(w),
    decreases w.len(),
{
    match wal_dec(w) {
        Some((r, n)) => {
            if rec_crc_ok(r) && 21 <= n <= w.len() {
                lemma_replay_prefix(w.skip(n), wal_apply(acc, r));
                let u = replay_used(w);
                assert(u == n + replay_used(w.skip(n)));
                let p = w.subrange(0, u);
                assert(p.subrange(0, n) =~= w.subrange(0, n));
                lemma_wal_dec_agree(w, p, r, n);
                assert(p.skip(n) =~= w.skip(n).subrange(0, replay_used(w.skip(n))));
            } else {
                assert(w.subrange(0, 0) =~= Seq::<u8>::empty());
            }
        },
        None => {
            assert(w.subrange(0, 0) =~= Seq::<u8>::empty());
        },
    }
}

/// Serializes one log record.
pub fn encode_record(crc: u32, tombstone: bool, key: &Vec<u8>, value: u64) -> (r: Vec<u8>)
    ensures
        r@.len() == 21 + key@.len(),
        r@ == rec_enc(crc as nat, tombstone, key@, value),
        wal_dec(r@) == Some(
            (RecG { crc: crc as nat, tombstone, key: key@, value }, r@.len() as int),
        ),
{
    proof {
        lemma_pow256_unfold8();
        lemma_le_bytes_len(crc as nat, 4);
        lemma_le_bytes_len(key@.len(), 8);
        lemma_le_bytes_len(value as nat, 8);
    }
    let mut out: Vec<u8> = Vec::new();
    push_le(&mut out, crc as u64, 4);
    let tbyte: u8 = if tombstone {
        1u8
    } else {
        0u8
    };
    out.push(tbyte);
    push_le(&mut out, key.len() as u64, 8);
    let ghost head = out@;
    let mut i: usize = 0;
    while i < key.len()
        invariant
            i <= key.len(),
            out@ == head + key@.subrange(0, i as int),
        decreases key.len() - i,
    {
        out.push(key[i]);
        proof {
            assert(out@ =~= head + key@.subrange(0, i + 1));
        }
        i = i + 1;
    }
    push_le(&mut out, value, 8);
    proof {
        let klen = key@.len() as int;
        let av = le_bytes(crc as nat, 4);
        let bv = le_bytes(key@.len(), 8);
        let cv = le_bytes(value as nat, 8);
        assert(key@.subrange(0, klen) =~= key@);
        assert(out@ == ((av.push(tbyte) + bv) + key@) + cv);
        assert(av.push(tbyte) =~= av + seq![tbyte]);
        assert(out@ =~= rec_enc(crc as nat, tombstone, key@, value));
        assert(out@.len() == 21 + klen);
        assert(out@.subrange(0, 4) =~= av);
        assert(out@[4] == tbyte);
        assert(out@.subrange(5, 13) =~= bv);
        assert(out@.subrange(13, 13 + klen) =~= key@);
        assert(out@.subrange(13 + klen, 21 + klen) =~= cv);
        lemma_le_val_le_bytes(crc as nat, 4);
        lemma_le_val_le_bytes(key@.len(), 8);
        lemma_le_val_le_bytes(value as nat, 8);
        assert(wal_dec(out@) == Some(
            (RecG { crc: crc as nat, tombstone, key: key@, value }, out@.len() as int),
        ));
    }
    out
}

/// Decodes one record at offset i, returning its fields and the offset of
/// the next record.
pub fn decode_record(b: &Vec<u8>, i: usize) -> (r: Option<(u32, bool, Vec<u8>, u64, usize)>)
    requires
        i <= b.len(),
    ensures
        match r {
            None => wal_dec(b@.skip(i as int)) is None,
            Some((crc, tb, key, value, next)) => {
                &&& wal_dec(b@.skip(i as int)) == Some(
                    (RecG { crc: crc as nat, tombstone: tb, key: key@, value }, next - i),
                )
                &&& i + 21 <= next <= b.len()
            },
        },
{
    let ghost s = b@.skip(i as int);
    if b.len() - i < 21 {
        return None;
    }
    proof {
        lemma_pow256_unfold8();
        assert(s.subrange(0, 4) =~= b@.subrange(i as int, i + 4));
        assert(s.subrange(5, 13) =~= b@.subrange(i + 5, i + 13));
        lemma_le_val_bound(s.subrange(0, 4));
        lemma_le_val_bound(s.subrange(5, 13));
    }
    let crc64 = read_le(b, i, 4);
    let tb_byte = b[i + 4];
    proof {
        assert(s[4] == b@[i + 4]);
    }
    if tb_byte > 1 {
        return None;
    }
    let klen64 = read_le(b, i + 5, 8);
    let remaining = b.len() - i;
    if klen64 > (remaining - 21) as u64 {
        return None;
    }
    let klen = klen64 as usize;
    let key = copy_range(b, i + 13, klen);
    let value = read_le(b, i + 13 + klen, 8);
    proof {
        let kl = klen as int;
        assert(s.subrange(13, 13 + kl) =~= b@.subrange(i + 13, i + 13 + kl));
        assert(s.subrange(13 + kl, 21 + kl) =~= b@.subrange(i + 13 + kl, i + 21 + kl));
        lemma_le_val_bound(s.subrange(13 + kl, 21 + kl));
        assert((le_val(s.subrange(13 + kl, 21 + kl)) as u64) as nat == le_val(
            s.subrange(13 + kl, 21 + kl),
        ));
    }
    Some((crc64 as u32, tb_byte == 1, key, value, i + 21 + klen))
}

/// Replays the log from its start, reconstructing a memtable from the
/// longest prefix of whole, checksummed records, and reporting how many
/// bytes that prefix holds.
pub fn replay(wal: &Vec<u8>) -> (r: (Memtable, usize))
    ensures
        r.0.wf(),
        r.0.as_map() == replay_map(wal@),
        r.1 as int == replay_used(wal@),
        r.1 <= wal@.len(),
{
    let mut mt = Memtable::new();
    let mut i: usize = 0;
    let mut go = true;
    proof {
        assert(wal@.skip(0) =~= wal@);
    }
    while go
        invariant
            i <= wal.len(),
            mt.wf(),
            replay_map(wal@) == replay_acc(wal@.skip(i as int), mt.as_map()),
            replay_used(wal@) == i + replay_used(wal@.skip(i as int)),
            !go ==> replay_used(wal@.skip(i as int)) == 0 && replay_acc(
                wal@.skip(i as int),
                mt.as_map(),
            ) == mt.as_map(),
        decreases
                wal.len() - i + (if go {
                    1int
                } else {
                    0int
                }),
    {
        match decode_record(wal, i) {
            None => {
                go = false;
            },
            Some((crc, tb, key, value, next)) => {
                let crc2 = compute_record_crc(tb, &key, value);
                let ghost rec = RecG { crc: crc as nat, tombstone: tb, key: key@, value };
                if crc2 != crc {
                    proof {
                        assert(!rec_crc_ok(rec));
                    }
                    go = false;
                } else {
                    proof {
                        assert(rec_crc_ok(rec));
                        let s = wal@.skip(i as int);
                        let n = next - i;
                        assert(s.skip(n) =~= wal@.skip(next as int));
                        assert(replay_acc(s, mt.as_map()) == replay_acc(
                            s.skip(n),
                            wal_apply(mt.as_map(), rec),
                        ));
                        assert(replay_used(s) == n + replay_used(s.skip(n)));
                    }
                    if tb {
                        mt.remove(&key);
                    } else {
                        mt.insert(key, value);
                    }
                    i = next;
                }
            },
        }
    }
    (mt, i)
}

} // verus!
