use vstd::prelude::*;
use vstd::arithmetic::div_mod::{lemma_div_denominator, lemma_fundamental_div_mod};

verus! {

/// 256 raised to the power n: one more than the largest value n bytes can hold.
pub open spec fn pow256(n: nat) -> nat
    decreases n,
{
    if n == 0 {
        1
    } else {
        256 * pow256((n - 1) as nat)
    }
}

/// The value of a byte sequence read as a little-endian integer,
/// least significant byte first.
pub open spec fn le_val(s: Seq<u8>) -> nat
    decreases s.len(),
{
    if s.len() == 0 {
        0
    } else {
        (s[0] + 256 * le_val(s.skip(1))) as nat
    }
}

/// The n low-order bytes of x, least significant byte first.
pub open spec fn le_bytes(x: nat, n: nat) -> Seq<u8>
    decreases n,
{
    if n == 0 {
        Seq::empty()
    } else {
        seq![(x % 256) as u8] + le_bytes(x / 256, (n - 1) as nat)
    }
}

pub proof fn lemma_pow256_pos(n: nat)
    ensures
        pow256(n) >= 1,
    decreases n,
{
    if n > 0 {
        lemma_pow256_pos((n - 1) as nat);
    }
}

pub proof fn lemma_pow256_unfold8()
    ensures
        pow256(0) == 1,
        pow256(1) == 0x100,
        pow256(2) == 0x10000,
        pow256(3) == 0x1000000,
        pow256(4) == 0x100000000,
        pow256(5) == 0x10000000000,
        pow256(6) == 0x1000000000000,
        pow256(7) == 0x100000000000000,
        pow256(8) == 0x10000000000000000,
{
    assert(pow256(0) == 1);
    assert(pow256(1) == 0x100);
    assert(pow256(2) == 0x10000);
    assert(pow256(3) == 0x1000000);
    assert(pow256(4) == 0x100000000);
    assert(pow256(5) == 0x10000000000);
    assert(pow256(6) == 0x1000000000000);
    assert(pow256(7) == 0x100000000000000);
    assert(pow256(8) == 0x10000000000000000);
}

/// pow256 is monotone in its exponent.
pub proof fn lemma_pow256_mono(m: nat, n: nat)
    requires
        m <= n,
    ensures
        pow256(m) <= pow256(n),
    decreases n,
{
    if m < n {
        lemma_pow256_mono(m, (n - 1) as nat);
        lemma_pow256_pos((n - 1) as nat);
    }
}

pub proof fn lemma_le_bytes_len(x: nat, n: nat)
    ensures
        le_bytes(x, n).len() == n,
    decreases n,
{
    if n > 0 {
        lemma_le_bytes_len(x / 256, (n - 1) as nat);
    }
}

/// Reading back the little-endian bytes of x yields x, when x fits in n bytes.
pub proof fn lemma_le_val_le_bytes(x: nat, n: nat)
    requires
        x < pow256(n),
    ensures
        le_val(le_bytes(x, n)) == x,
    decreases n,
{
    if n == 0 {
        assert(x == 0);
    } else {
        let rest = le_bytes(x / 256, (n - 1) as nat);
        assert(le_bytes(x, n) == seq![(x % 256) as u8] + rest);
        assert((seq![(x % 256) as u8] + rest).skip(1) == rest);
        assert(x / 256 < pow256((n - 1) as nat)) by {
            lemma_pow256_pos((n - 1) as nat);
            lemma_div_denominator(x as int, 256, pow256((n - 1) as nat) as int);
            assert(x as int / ((256 * pow256((n - 1) as nat)) as int) == 0) by {
                vstd::arithmetic::div_mod::lemma_basic_div(
                    x as int,
                    (256 * pow256((n - 1) as nat)) as int,
                );
            }
        }
        lemma_le_val_le_bytes(x / 256, (n - 1) as nat);
        lemma_fundamental_div_mod(x as int, 256);
    }
}

/// A byte sequence of length n holds a value below pow256(n).
pub proof fn lemma_le_val_bound(s: Seq<u8>)
    ensures
        le_val(s) < pow256(s.len()),
    decreases s.len(),
{
    if s.len() > 0 {
        lemma_le_val_bound(s.skip(1));
        assert(le_val(s) == s[0] + 256 * le_val(s.skip(1)));
        assert(256 * le_val(s.skip(1)) <= 256 * (pow256((s.len() - 1) as nat) - 1))
            by (nonlinear_arith)
            requires
                le_val(s.skip(1)) <= pow256((s.len() - 1) as nat) - 1,
        ;
    }
}

/// Appending one more little-endian byte appends the next 8 bits of x.
pub proof fn lemma_le_bytes_snoc(x: nat, n: nat)
    ensures
        le_bytes(x, n + 1) == le_bytes(x, n).push(((x / pow256(n)) % 256) as u8),
    decreases n,
{
    lemma_le_bytes_len(x, n);
    if n == 0 {
        assert(pow256(0) == 1);
        vstd::arithmetic::div_mod::lemma_div_basics(x as int);
        assert(le_bytes(x / 256, 0) =~= Seq::<u8>::empty());
        assert(le_bytes(x, 1) =~= le_bytes(x, 0).push(((x / pow256(0)) % 256) as u8));
    } else {
        lemma_le_bytes_snoc(x / 256, (n - 1) as nat);
        lemma_pow256_pos((n - 1) as nat);
        lemma_div_denominator(x as int, 256, pow256((n - 1) as nat) as int);
        assert((x / 256) / pow256((n - 1) as nat) == x / pow256(n));
        assert(le_bytes(x, n + 1) =~= le_bytes(x, n).push(((x / pow256(n)) % 256) as u8));
    }
}

/// Appends the n low-order bytes of x to out, least significant first.
pub fn push_le(out: &mut Vec<u8>, x: u64, n: usize)
    requires
        n <= 8,
        (x as nat) < pow256(n as nat),
    ensures
        final(out)@ == old(out)@ + le_bytes(x as nat, n as nat),
{
    let ghost base = out@;
    let mut v: u64 = x;
    let mut i: usize = 0;
    proof {
        assert(out@ =~= base + le_bytes(x as nat, 0));
        assert(pow256(0) == 1);
        vstd::arithmetic::div_mod::lemma_div_basics(x as int);
    }
    while i < n
        invariant
            i <= n,
            n <= 8,
            (x as nat) < pow256(n as nat),
            out@ == base + le_bytes(x as nat, i as nat),
            v as nat == (x as nat) / pow256(i as nat),
        decreases n - i,
    {
        let b: u8 = (v % 256) as u8;
        out.push(b);
        proof {
            lemma_pow256_pos(i as nat);
            lemma_le_bytes_snoc(x as nat, i as nat);
            lemma_le_bytes_len(x as nat, i as nat);
            assert(b == ((x as nat / pow256(i as nat)) % 256));
            assert(out@ =~= base + le_bytes(x as nat, (i + 1) as nat));
            lemma_div_denominator(x as int, pow256(i as nat) as int, 256);
            assert(pow256(i as nat) * 256 == pow256((i + 1) as nat)) by (nonlinear_arith)
                requires
                    pow256((i + 1) as nat) == 256 * pow256(i as nat),
            ;
        }
        v = v / 256;
        i = i + 1;
    }
}

/// Reads the n bytes at offset i as a little-endian integer.
pub fn read_le(b: &Vec<u8>, i: usize, n: usize) -> (r: u64)
    requires
        n <= 8,
        i + n <= b.len(),
    ensures
        r as nat == le_val(b@.subrange(i as int, i + n)),
{
    let mut acc: u64 = 0;
    let mut j: usize = n;
    while j > 0
        invariant
            j <= n,
            n <= 8,
            i + n <= b.len(),
            acc as nat == le_val(b@.subrange(i + j, i + n)),
            (acc as nat) < pow256((n - j) as nat),
        decreases j,
    {
        j = j - 1;
        let byte: u8 = b[i + j];
        proof {
            let s = b@.subrange(i + j, i + n);
            assert(s.len() > 0);
            assert(s[0] == byte);
            assert(s.skip(1) =~= b@.subrange(i + j + 1, i + n));
            assert(le_val(s) == byte + 256 * le_val(s.skip(1)));
            lemma_pow256_mono((n - j - 1) as nat, 7);
            lemma_pow256_unfold8();
            assert(256 * (acc as nat) + byte < 256 * pow256((n - j - 1) as nat))
                by (nonlinear_arith)
                requires
                    (acc as nat) < pow256((n - j - 1) as nat),
                    byte < 256,
            ;
            assert(256 * pow256((n - j - 1) as nat) == pow256((n - j) as nat));
            assert(pow256((n - j) as nat) <= pow256(8nat)) by {
                lemma_pow256_mono((n - j) as nat, 8);
            }
        }
        acc = acc * 256 + (byte as u64);
    }
    proof {
        assert(b@.subrange(i as int, i + n) == b@.subrange(i + 0, i + n));
    }
    acc
}

/// Returns a copy of the n bytes of b starting at offset i.
pub fn copy_range(b: &Vec<u8>, i: usize, n: usize) -> (r: Vec<u8>)
    requires
        i + n <= b.len(),
    ensures
        r@ == b@.subrange(i as int, i + n),
{
    let mut r: Vec<u8> = Vec::new();
    let mut j: usize = 0;
    while j < n
        invariant
            j <= n,
            i + n <= b.len(),
            r@ == b@.subrange(i as int, i + j),
        decreases n - j,
    {
        r.push(b[i + j]);
        proof {
            assert(r@ =~= b@.subrange(i as int, i + j + 1));
        }
        j = j + 1;
    }
    r
}

} // verus!
