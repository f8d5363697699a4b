use vstd::prelude::*;
use crate::bytes::{le_bytes, lemma_pow256_unfold8, push_le};

verus! {

/// CRC-32 (IEEE) of a byte sequence, as crc32fast computes it. The algorithm
/// itself is left unstated: the engine only needs the checksum to be a fixed
/// function of the bytes.
pub uninterp spec fn spec_crc32(data: Seq<u8>) -> u32;

/// Relies on crc32fast::hash: the CRC-32 (IEEE) checksum of the buffer,
/// a function of the buffer's bytes alone.
#[verifier::external_body]
fn crc32(data: &Vec<u8>) -> (r: u32)
    ensures
        r == spec_crc32(data@),
{
    crc32fast::hash(data.as_slice())
}

pub const FNV_SEED: u64 = 0xcbf29ce484222325;

pub const FNV_PRIME: u64 = 0x100000001b3;

/// One FNV-1a step: fold the byte in, multiply by the prime mod 2^64.
pub open spec fn fnv_step(h: u64, b: u8) -> u64 {
    ((((h ^ (b as u64)) as nat) * (FNV_PRIME as nat)) % 0x10000000000000000) as u64
}

pub open spec fn fnv_from(s: Seq<u8>, h: u64) -> u64
    decreases s.len(),
{
    if s.len() == 0 {
        h
    } else {
        fnv_from(s.skip(1), fnv_step(h, s[0]))
    }
}

/// The 64-bit FNV-1a content hash of a byte sequence.
pub open spec fn fnv64(s: Seq<u8>) -> u64 {
    fnv_from(s, FNV_SEED)
}

/// Computes the FNV-1a content hash.
pub fn fnv64_exec(data: &Vec<u8>) -> (r: u64)
    ensures
        r == fnv64(data@),
{
    let mut h: u64 = FNV_SEED;
    let mut i: usize = 0;
    proof {
        assert(data@.skip(0) =~= data@);
    }
    while i < data.len()
        invariant
            i <= data.len(),
            fnv64(data@) == fnv_from(data@.skip(i as int), h),
        decreases data.len() - i,
    {
        let b = data[i];
        let x: u64 = h ^ (b as u64);
        proof {
            assert((x as nat) * (FNV_PRIME as nat) <= 0xffffffffffffffff * 0x100000001b3)
                by (nonlinear_arith)
                requires
                    (x as nat) <= 0xffffffffffffffff,
            ;
        }
        let prod: u128 = (x as u128) * (FNV_PRIME as u128);
        let m: u128 = prod % 0x10000000000000000u128;
        proof {
            let s = data@.skip(i as int);
            assert(s[0] == b);
            assert(s.skip(1) =~= data@.skip(i as int + 1));
            assert(m as u64 == fnv_step(h, b));
            assert(fnv_from(s, h) == fnv_from(s.skip(1), fnv_step(h, s[0])));
        }
        h = m as u64;
        i = i + 1;
    }
    h
}

/// The byte string the record checksum covers: the tombstone flag, the
/// content hash of the key, and the content hash of the value's bytes,
/// in that order.
pub open spec fn crc_input(tombstone: bool, key: Seq<u8>, value: u64) -> Seq<u8> {
    seq![if tombstone { 1u8 } else { 0u8 }] + le_bytes(fnv64(key) as nat, 8) + le_bytes(
        fnv64(le_bytes(value as nat, 8)) as nat,
        8,
    )
}

/// The checksum stored with each log record: a CRC over the two content
/// hashes and the tombstone flag.
pub open spec fn record_crc(tombstone: bool, key: Seq<u8>, value: u64) -> u32 {
    spec_crc32(crc_input(tombstone, key, value))
}

/// Computes the checksum a log record must carry.
pub fn compute_record_crc(tombstone: bool, key: &Vec<u8>, value: u64) -> (r: u32)
    ensures
        r == record_crc(tombstone, key@, value),
{
    proof {
        lemma_pow256_unfold8();
    }
    let hk = fnv64_exec(key);
    let mut vb: Vec<u8> = Vec::new();
    push_le(&mut vb, value, 8);
    proof {
        assert(vb@ =~= le_bytes(value as nat, 8));
    }
    let hv = fnv64_exec(&vb);
    let mut input: Vec<u8> = Vec::new();
    input.push(if tombstone { 1u8 } else { 0u8 });
    push_le(&mut input, hk, 8);
    push_le(&mut input, hv, 8);
    proof {
        assert(input@ =~= crc_input(tombstone, key@, value));
    }
    crc32(&input)
}

} // verus!
