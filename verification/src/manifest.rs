use vstd::prelude::*;
use crate::bytes::{
    le_bytes, le_val, lemma_le_bytes_len, lemma_le_val_bound, lemma_le_val_le_bytes,
    lemma_pow256_unfold8, push_le, read_le,
};

verus! {

/// Decodes the catalog: an 8-byte count and that many 8-byte table
/// identifiers, oldest first, with nothing after them.
pub open spec fn man_dec(b: Seq<u8>) -> Option<Seq<u64>> {
    if b.len() < 8 {
        None
    } else {
        let cnt = le_val(b.subrange(0, 8)) as int;
        if b.len() == 8 + 8 * cnt {
            Some(Seq::new(cnt as nat, |j: int| le_val(b.subrange(8 + 8 * j, 16 + 8 * j)) as u64))
        } else {
            None
        }
    }
}

/// Serializes the catalog.
pub fn man_encode(ids: &Vec<u64>) -> (r: Vec<u8>)
    ensures
        man_dec(r@) == Some(ids@),
{
    proof {
        lemma_pow256_unfold8();
        lemma_le_bytes_len(ids@.len(), 8);
    }
    let cnt = ids.len();
    let mut out: Vec<u8> = Vec::new();
    push_le(&mut out, cnt as u64, 8);
    let mut i: usize = 0;
    proof {
        assert(out@ =~= le_bytes(cnt as nat, 8));
        assert(out@.subrange(0, 8) =~= le_bytes(cnt as nat, 8));
    }
    while i < cnt
        invariant
            i <= cnt,
            cnt == ids@.len(),
            out@.len() == 8 + 8 * i,
            out@.subrange(0, 8) == le_bytes(cnt as nat, 8),
            forall|j: int|
                0 <= j < i ==> out@.subrange(8 + 8 * j, 16 + 8 * j) == le_bytes(
                    (#[trigger] ids@[j]) as nat,
                    8,
                ),
        decreases cnt - i,
    {
        let ghost prev = out@;
        proof {
            lemma_pow256_unfold8();
            lemma_le_bytes_len(ids@[i as int] as nat, 8);
        }
        push_le(&mut out, ids[i], 8);
        proof {
            assert(out@.subrange(0, 8) =~= prev.subrange(0, 8));
            assert forall|j: int| 0 <= j < i + 1 implies out@.subrange(8 + 8 * j, 16 + 8 * j)
                == le_bytes((#[trigger] ids@[j]) as nat, 8) by {
                if j < i {
                    assert(out@.subrange(8 + 8 * j, 16 + 8 * j) =~= prev.subrange(
                        8 + 8 * j,
                        16 + 8 * j,
                    ));
                } else {
                    assert(out@.subrange(8 + 8 * j, 16 + 8 * j) =~= le_bytes(
                        ids@[j] as nat,
                        8,
                    ));
                }
            }
        }
        i = i + 1;
    }
    proof {
        lemma_le_val_le_bytes(cnt as nat, 8);
        assert forall|j: int| 0 <= j < ids@.len() implies le_val(
            out@.subrange(8 + 8 * j, 16 + 8 * j),
        ) as u64 == ids@[j] by {
            lemma_le_val_le_bytes(ids@[j] as nat, 8);
            assert(out@.subrange(8 + 8 * j, 16 + 8 * j) == le_bytes(ids@[j] as nat, 8));
        }
        let dec = man_dec(out@);
        assert(dec is Some);
        assert(dec.unwrap() =~= ids@);
    }
    out
}

/// Decodes the catalog, refusing bytes that do not form one.
pub fn man_decode_exec(b: &Vec<u8>) -> (r: Option<Vec<u64>>)
    ensures
        match r {
            None => man_dec(b@) is None,
            Some(v) => man_dec(b@) == Some(v@),
        },
{
    if b.len() < 8 {
        return None;
    }
    proof {
        lemma_pow256_unfold8();
        lemma_le_val_bound(b@.subrange(0, 8));
    }
    let cnt64 = read_le(b, 0, 8);
    let body = b.len() - 8;
    let cnt_check = body / 8;
    if body % 8 != 0 || cnt64 != cnt_check as u64 {
        proof {
            let cnt = le_val(b@.subrange(0, 8)) as int;
            assert(cnt == cnt64 as int);
            if b@.len() == 8 + 8 * cnt {
                assert(body == 8 * cnt);
                assert(body % 8 == 0 && body / 8 == cnt) by (nonlinear_arith)
                    requires
                        body == 8 * cnt,
                        cnt >= 0,
                ;
            }
        }
        return None;
    }
    let cnt = cnt_check;
    proof {
        assert(body == 8 * (cnt as int) + body % 8) by (nonlinear_arith)
            requires
                cnt as int == body as int / 8,
                body >= 0,
        ;
        assert(b@.len() == 8 + 8 * (cnt64 as int));
    }
    let mut out: Vec<u64> = Vec::new();
    let mut j: usize = 0;
    while j < cnt
        invariant
            j <= cnt,
            b.len() == 8 + 8 * (cnt as int),
            out@.len() == j,
            forall|t: int|
                0 <= t < j ==> (#[trigger] out@[t]) as nat == le_val(
                    b@.subrange(8 + 8 * t, 16 + 8 * t),
                ),
        decreases cnt - j,
    {
        let id = read_le(b, 8 + 8 * j, 8);
        out.push(id);
        j = j + 1;
    }
    proof {
        let cntv = le_val(b@.subrange(0, 8));
        let dec = man_dec(b@);
        assert(dec is Some);
        assert forall|t: int| 0 <= t < out@.len() implies out@[t] == dec.unwrap()[t] by {
            lemma_le_val_bound(b@.subrange(8 + 8 * t, 16 + 8 * t));
            lemma_pow256_unfold8();
        }
        assert(out@ =~= dec.unwrap());
    }
    Some(out)
}

} // verus!
