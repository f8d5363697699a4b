use vstd::prelude::*;
use crate::bytes::{
    copy_range, le_bytes, le_val, lemma_le_bytes_len, lemma_le_val_bound, lemma_le_val_le_bytes,
    lemma_pow256_unfold8, pow256, push_le, read_le,
};
use crate::entries::{Entry, EntryG, entries_view, sorted_strict};
use crate::keys::{key_compare, key_lt, lemma_key_lt_trans, KeyCmp};

verus! {

/// Bytes of one stored pair: an 8-byte key length, the key, an 8-byte value.
pub open spec fn ent_enc(e: EntryG) -> Seq<u8> {
    le_bytes(e.key.len(), 8) + e.key + le_bytes(e.value as nat, 8)
}

/// Decodes one stored pair from the front of b, with the bytes it occupies.
pub open spec fn ent_dec(b: Seq<u8>) -> Option<(EntryG, int)> {
    if b.len() < 16 {
        None
    } else {
        let klen = le_val(b.subrange(0, 8)) as int;
        if 16 + klen > b.len() {
            None
        } else {
            Some(
                (
                    EntryG {
                        key: b.subrange(8, 8 + klen),
                        value: le_val(b.subrange(8 + klen, 16 + klen)) as u64,
                    },
                    16 + klen,
                ),
            )
        }
    }
}

/// Decodes cnt stored pairs from the front of b, with the bytes they occupy.
pub open spec fn ents_dec(b: Seq<u8>, cnt: nat) -> Option<(Seq<EntryG>, int)>
    decreases cnt,
{
    if cnt == 0 {
        Some((Seq::empty(), 0))
    } else {
        match ent_dec(b) {
            Some((e, n)) => match ents_dec(b.skip(n), (cnt - 1) as nat) {
                Some((es, u)) => Some((seq![e] + es, n + u)),
                None => None,
            },
            None => None,
        }
    }
}

/// Decodes a whole table: an 8-byte pair count, the pairs, nothing after
/// them, and the pairs in strictly ascending key order.
pub open spec fn sst_dec(b: Seq<u8>) -> Option<Seq<EntryG>> {
    if b.len() < 8 {
        None
    } else {
        match ents_dec(b.skip(8), le_val(b.subrange(0, 8))) {
            Some((es, u)) => if u == b.len() - 8 && sorted_strict(es) {
                Some(es)
            } else {
                None
            },
            None => None,
        }
    }
}

/// A pair's bytes decode back to the pair, whatever follows them.
pub proof fn lemma_ent_enc_dec(e: EntryG, rest: Seq<u8>)
    requires
        e.key.len() < pow256(8),
    ensures
        ent_enc(e).len() == 16 + e.key.len(),
        ent_dec(ent_enc(e) + rest) == Some((e, 16 + e.key.len() as int)),
{
    lemma_pow256_unfold8();
    lemma_le_bytes_len(e.key.len(), 8);
    lemma_le_bytes_len(e.value as nat, 8);
    lemma_le_val_le_bytes(e.key.len(), 8);
    lemma_le_val_le_bytes(e.value as nat, 8);
    let whole = ent_enc(e) + rest;
    let klen = e.key.len() as int;
    assert(whole.subrange(0, 8) =~= le_bytes(e.key.len(), 8));
    assert(whole.subrange(8, 8 + klen) =~= e.key);
    assert(whole.subrange(8 + klen, 16 + klen) =~= le_bytes(e.value as nat, 8));
}

/// Bytes of a pair sequence, first pair first.
pub open spec fn ents_enc(es: Seq<EntryG>) -> Seq<u8>
    decreases es.len(),
{
    if es.len() == 0 {
        Seq::empty()
    } else {
        ent_enc(es[0]) + ents_enc(es.skip(1))
    }
}

/// Appending a pair to the sequence appends its bytes.
pub proof fn lemma_ents_enc_snoc(es: Seq<EntryG>, e: EntryG)
    ensures
        ents_enc(es.push(e)) == ents_enc(es) + ent_enc(e),
    decreases es.len(),
{
    if es.len() == 0 {
        assert(es.push(e).len() == 1);
        assert(es.push(e)[0] == e);
        assert(es.push(e).skip(1) =~= Seq::<EntryG>::empty());
        assert(ents_enc(es.push(e)) == ent_enc(e) + ents_enc(es.push(e).skip(1)));
        assert(ents_enc(Seq::<EntryG>::empty()) == Seq::<u8>::empty());
        assert(ents_enc(es) == Seq::<u8>::empty());
        assert(ents_enc(es.push(e)) =~= ents_enc(es) + ent_enc(e));
    } else {
        assert(es.push(e)[0] == es[0]);
        assert(es.push(e).skip(1) =~= es.skip(1).push(e));
        lemma_ents_enc_snoc(es.skip(1), e);
        assert(ents_enc(es.push(e)) =~= ents_enc(es) + ent_enc(e));
    }
}

/// The bytes of a pair sequence decode back to the sequence.
pub proof fn lemma_ents_enc_dec(es: Seq<EntryG>)
    requires
        forall|j: int| 0 <= j < es.len() ==> (#[trigger] es[j]).key.len() < pow256(8),
    ensures
        ents_dec(ents_enc(es), es.len()) == Some((es, ents_enc(es).len() as int)),
    decreases es.len(),
{
    if es.len() > 0 {
        lemma_ent_enc_dec(es[0], ents_enc(es.skip(1)));
        let n = 16 + es[0].key.len() as int;
        assert((ent_enc(es[0]) + ents_enc(es.skip(1))).skip(n) =~= ents_enc(es.skip(1)));
        lemma_ents_enc_dec(es.skip(1));
        assert(seq![es[0]] + es.skip(1) =~= es);
    }
}

/// Joins an already decoded prefix with the rest of a pair decode.
pub open spec fn dec_join(pre: Seq<EntryG>, off: int, rest: Option<(Seq<EntryG>, int)>) -> Option<
    (Seq<EntryG>, int),
> {
    match rest {
        Some((es, u)) => Some((pre + es, off + u)),
        None => None,
    }
}

/// Serializes a sorted pair sequence as one table.
pub fn sst_encode(entries: &Vec<Entry>) -> (r: Vec<u8>)
    requires
        sorted_strict(entries_view(entries@)),
    ensures
        r@ == le_bytes(entries@.len(), 8) + ents_enc(entries_view(entries@)),
        sst_dec(r@) == Some(entries_view(entries@)),
{
    proof {
        lemma_pow256_unfold8();
        lemma_le_bytes_len(entries@.len(), 8);
    }
    let ghost s = entries_view(entries@);
    let cnt = entries.len();
    let mut out: Vec<u8> = Vec::new();
    push_le(&mut out, cnt as u64, 8);
    let mut i: usize = 0;
    proof {
        assert(s.subrange(0, 0) =~= Seq::<EntryG>::empty());
        assert(out@ =~= le_bytes(cnt as nat, 8) + ents_enc(s.subrange(0, 0)));
    }
    while i < cnt
        invariant
            i <= cnt,
            cnt == entries@.len(),
            s == entries_view(entries@),
            out@ == le_bytes(cnt as nat, 8) + ents_enc(s.subrange(0, i as int)),
            forall|j: int| 0 <= j < i ==> (#[trigger] s[j]).key.len() < pow256(8),
        decreases cnt - i,
    {
        proof {
            lemma_pow256_unfold8();
            lemma_le_bytes_len(entries@[i as int].key@.len(), 8);
        }
        let klen = entries[i].key.len();
        push_le(&mut out, klen as u64, 8);
        let ghost head = out@;
        let mut j: usize = 0;
        while j < klen
            invariant
                j <= klen,
                klen == entries@[i as int].key@.len(),
                i < entries@.len(),
                out@ == head + entries@[i as int].key@.subrange(0, j as int),
            decreases klen - j,
        {
            out.push(entries[i].key[j]);
            proof {
                assert(out@ =~= head + entries@[i as int].key@.subrange(0, j + 1));
            }
            j = j + 1;
        }
        proof {
            lemma_pow256_unfold8();
        }
        push_le(&mut out, entries[i].value, 8);
        proof {
            let e = s[i as int];
            assert(e.key =~= entries@[i as int].key@);
            assert(entries@[i as int].key@.subrange(0, klen as int) =~= e.key);
            assert(out@ =~= (le_bytes(cnt as nat, 8) + ents_enc(s.subrange(0, i as int)))
                + ent_enc(e));
            assert(s.subrange(0, i + 1) =~= s.subrange(0, i as int).push(e));
            lemma_ents_enc_snoc(s.subrange(0, i as int), e);
            assert(out@ =~= le_bytes(cnt as nat, 8) + ents_enc(s.subrange(0, i + 1)));
        }
        i = i + 1;
    }
    proof {
        assert(s.subrange(0, cnt as int) =~= s);
        lemma_ents_enc_dec(s);
        lemma_le_val_le_bytes(entries@.len(), 8);
        assert(out@.subrange(0, 8) =~= le_bytes(cnt as nat, 8));
        assert(out@.skip(8) =~= ents_enc(s));
        assert(sst_dec(out@) == Some(s));
    }
    out
}

/// Decodes one stored pair at offset p.
pub fn ent_dec_exec(b: &Vec<u8>, p: usize) -> (r: Option<(Vec<u8>, u64, usize)>)
    requires
        p <= b.len(),
    ensures
        match r {
            None => ent_dec(b@.skip(p as int)) is None,
            Some((key, value, next)) => {
                &&& ent_dec(b@.skip(p as int)) == Some(
                    (EntryG { key: key@, value }, next - p),
                )
                &&& p + 16 <= next <= b.len()
            },
        },
{
    let ghost s = b@.skip(p as int);
    if b.len() - p < 16 {
        return None;
    }
    proof {
        lemma_pow256_unfold8();
        assert(s.subrange(0, 8) =~= b@.subrange(p as int, p + 8));
        lemma_le_val_bound(s.subrange(0, 8));
    }
    let klen64 = read_le(b, p, 8);
    let remaining = b.len() - p;
    if klen64 > (remaining - 16) as u64 {
        return None;
    }
    let klen = klen64 as usize;
    let key = copy_range(b, p + 8, klen);
    let value = read_le(b, p + 8 + klen, 8);
    proof {
        let kl = klen as int;
        assert(s.subrange(8, 8 + kl) =~= b@.subrange(p + 8, p + 8 + kl));
        assert(s.subrange(8 + kl, 16 + kl) =~= b@.subrange(p + 8 + kl, p + 16 + kl));
        lemma_le_val_bound(s.subrange(8 + kl, 16 + kl));
        assert((le_val(s.subrange(8 + kl, 16 + kl)) as u64) as nat == le_val(
            s.subrange(8 + kl, 16 + kl),
        ));
    }
    Some((key, value, p + 16 + klen))
}

/// All neighbouring pairs in order puts every pair in order.
pub proof fn lemma_chain(s: Seq<EntryG>, p: int, q: int)
    requires
        forall|j: int| 1 <= j < s.len() ==> key_lt(#[trigger] s[j - 1].key, s[j].key),
        0 <= p < q < s.len(),
    ensures
        key_lt(s[p].key, s[q].key),
    decreases q - p,
{
    if q == p + 1 {
        assert(key_lt(s[q - 1].key, s[q].key));
    } else {
        lemma_chain(s, p, q - 1);
        assert(key_lt(s[q - 1].key, s[q].key));
        lemma_key_lt_trans(s[p].key, s[q - 1].key, s[q].key);
    }
}

/// Decodes a whole table, refusing bytes that do not form one.
pub fn sst_decode_exec(b: &Vec<u8>) -> (r: Option<Vec<Entry>>)
    ensures
        match r {
            None => sst_dec(b@) is None,
            Some(v) => {
                &&& sst_dec(b@) == Some(entries_view(v@))
                &&& sorted_strict(entries_view(v@))
            },
        },
{
    if b.len() < 8 {
        return None;
    }
    proof {
        lemma_pow256_unfold8();
        assert(b@.subrange(0, 8) =~= b@.skip(0).subrange(0, 8));
        lemma_le_val_bound(b@.subrange(0, 8));
    }
    let cnt64 = read_le(b, 0, 8);
    let ghost cnt = le_val(b@.subrange(0, 8));
    let mut out: Vec<Entry> = Vec::new();
    let mut p: usize = 8;
    let mut k: u64 = 0;
    proof {
        assert(entries_view(out@) =~= Seq::<EntryG>::empty());
        match ents_dec(b@.skip(8), cnt) {
            Some((es, u)) => {
                assert(Seq::<EntryG>::empty() + es =~= es);
            },
            None => {},
        }
        assert(ents_dec(b@.skip(8), cnt) == dec_join(
            entries_view(out@),
            0,
            ents_dec(b@.skip(8), (cnt - 0) as nat),
        ));
    }
    while k < cnt64
        invariant
            8 <= p <= b.len(),
            k <= cnt64,
            cnt64 as nat == cnt,
            cnt == le_val(b@.subrange(0, 8)),
            b@.len() >= 8,
            entries_view(out@).len() == k,
            ents_dec(b@.skip(8), cnt) == dec_join(
                entries_view(out@),
                p - 8,
                ents_dec(b@.skip(p as int), (cnt - k) as nat),
            ),
        decreases cnt64 - k,
    {
        match ent_dec_exec(b, p) {
            None => {
                proof {
                    assert(ents_dec(b@.skip(p as int), (cnt - k) as nat) is None);
                }
                return None;
            },
            Some((key, value, next)) => {
                let ghost eg = EntryG { key: key@, value };
                let ghost n = next - p;
                let ghost view_old = entries_view(out@);
                let ghost old_p = p;
                proof {
                    let tail = b@.skip(p as int);
                    assert(tail.skip(n) =~= b@.skip(next as int));
                }
                out.push(Entry { key, value });
                p = next;
                k = k + 1;
                proof {
                    let tail = b@.skip(old_p as int);
                    let inner = ents_dec(b@.skip(p as int), (cnt - k) as nat);
                    assert(ents_dec(tail, (cnt - k + 1) as nat) == (match inner {
                        Some((es, u)) => Some((seq![eg] + es, n + u)),
                        None => None::<(Seq<EntryG>, int)>,
                    }));
                    assert(entries_view(out@) =~= view_old.push(eg));
                    match inner {
                        Some((es, u)) => {
                            assert(view_old + (seq![eg] + es) =~= view_old.push(eg) + es);
                        },
                        None => {},
                    }
                }
            },
        }
    }
    if p != b.len() {
        proof {
            assert(ents_dec(b@.skip(8), cnt) == dec_join(
                entries_view(out@),
                p - 8,
                Some((Seq::<EntryG>::empty(), 0)),
            ));
            assert(entries_view(out@) + Seq::<EntryG>::empty() =~= entries_view(out@));
        }
        return None;
    }
    let ghost s = entries_view(out@);
    proof {
        assert(entries_view(out@) + Seq::<EntryG>::empty() =~= entries_view(out@));
        assert(ents_dec(b@.skip(8), cnt) == Some((s, p - 8)));
    }
    let mut j: usize = 1;
    while j < out.len()
        invariant
            1 <= j,
            s == entries_view(out@),
            ents_dec(b@.skip(8), cnt) == Some((s, b@.len() - 8)),
            cnt == le_val(b@.subrange(0, 8)),
            b@.len() >= 8,
            forall|t: int| 1 <= t < j && t < s.len() ==> key_lt(#[trigger] s[t - 1].key, s[t].key),
        decreases out.len() - j,
    {
        match key_compare(&out[j - 1].key, &out[j].key) {
            KeyCmp::Below => {},
            _ => {
                proof {
                    assert(!key_lt(s[j - 1].key, s[j as int].key));
                    assert(!sorted_strict(s));
                }
                return None;
            },
        }
        j = j + 1;
    }
    proof {
        assert forall|pp: int, q: int| 0 <= pp < q < s.len() implies key_lt(
            s[pp].key,
            s[q].key,
        ) by {
            assert(forall|t: int| 1 <= t < s.len() ==> key_lt(#[trigger] s[t - 1].key, s[t].key));
            lemma_chain(s, pp, q);
        }
        assert(sorted_strict(s));
        assert(sst_dec(b@) == Some(s));
    }
    Some(out)
}

} // verus!
