use vstd::prelude::*;

verus! {

/// Strict lexicographic order on byte strings: a shorter string comes before
/// every string it is a prefix of.
pub open spec fn key_lt(a: Seq<u8>, b: Seq<u8>) -> bool
    decreases a.len(),
{
    if a.len() == 0 {
        b.len() > 0
    } else if b.len() == 0 {
        false
    } else if a[0] < b[0] {
        true
    } else if a[0] > b[0] {
        false
    } else {
        key_lt(a.skip(1), b.skip(1))
    }
}

/// No byte string is below itself.
pub proof fn lemma_key_lt_irrefl(a: Seq<u8>)
    ensures
        !key_lt(a, a),
    decreases a.len(),
{
    if a.len() > 0 {
        lemma_key_lt_irrefl(a.skip(1));
    }
}

/// The order is transitive.
pub proof fn lemma_key_lt_trans(a: Seq<u8>, b: Seq<u8>, c: Seq<u8>)
    requires
        key_lt(a, b),
        key_lt(b, c),
    ensures
        key_lt(a, c),
    decreases a.len(),
{
    if a.len() == 0 {
        // b is non-empty, so c is non-empty as well.
    } else {
        // b and c are non-empty, or key_lt could not hold of them.
        if a[0] == b[0] && b[0] == c[0] {
            lemma_key_lt_trans(a.skip(1), b.skip(1), c.skip(1));
        }
    }
}

/// Any two distinct byte strings are ordered one way or the other.
pub proof fn lemma_key_lt_total(a: Seq<u8>, b: Seq<u8>)
    ensures
        key_lt(a, b) || key_lt(b, a) || a == b,
    decreases a.len(),
{
    if a.len() == 0 || b.len() == 0 {
        if a.len() == 0 && b.len() == 0 {
            assert(a =~= b);
        }
    } else if a[0] == b[0] {
        lemma_key_lt_total(a.skip(1), b.skip(1));
        if !key_lt(a, b) && !key_lt(b, a) {
            assert(a.skip(1) == b.skip(1));
            assert(a.len() == b.len());
            assert forall|i: int| 0 <= i < a.len() implies a[i] == b[i] by {
                if i >= 1 {
                    assert(a[i] == a.skip(1)[i - 1]);
                    assert(b[i] == b.skip(1)[i - 1]);
                }
            }
            assert(a =~= b);
        }
    }
}

/// The three ways two byte strings can compare.
#[derive(Clone, Copy, Debug, PartialEq, Eq, Structural)]
pub enum KeyCmp {
    Below,
    Same,
    Above,
}

/// Compares two byte strings in lexicographic order.
pub fn key_compare(a: &Vec<u8>, b: &Vec<u8>) -> (r: KeyCmp)
    ensures
        r == KeyCmp::Same <==> a@ == b@,
        r == KeyCmp::Below <==> key_lt(a@, b@),
        r == KeyCmp::Above <==> key_lt(b@, a@),
{
    proof {
        lemma_key_lt_irrefl(a@);
        lemma_key_lt_total(a@, b@);
        assert(a@.skip(0) =~= a@);
        assert(b@.skip(0) =~= b@);
        assert(a@.subrange(0, 0) =~= b@.subrange(0, 0));
    }
    let mut i: usize = 0;
    loop
        invariant
            i <= a.len(),
            i <= b.len(),
            a@.subrange(0, i as int) == b@.subrange(0, i as int),
            key_lt(a@, b@) == key_lt(a@.skip(i as int), b@.skip(i as int)),
            key_lt(b@, a@) == key_lt(b@.skip(i as int), a@.skip(i as int)),
            (a@ == b@) == (a@.skip(i as int) == b@.skip(i as int)),
        decreases a.len() - i,
    {
        if i == a.len() && i == b.len() {
            proof {
                assert(a@.skip(i as int) =~= b@.skip(i as int));
            }
            return KeyCmp::Same;
        }
        if i == a.len() {
            proof {
                assert(a@.skip(i as int).len() == 0 && b@.skip(i as int).len() > 0);
                assert(a@.skip(i as int) != b@.skip(i as int));
            }
            return KeyCmp::Below;
        }
        if i == b.len() {
            proof {
                assert(b@.skip(i as int).len() == 0 && a@.skip(i as int).len() > 0);
                assert(a@.skip(i as int) != b@.skip(i as int));
            }
            return KeyCmp::Above;
        }
        let x = a[i];
        let y = b[i];
        proof {
            assert(a@.skip(i as int)[0] == x);
            assert(b@.skip(i as int)[0] == y);
        }
        if x < y {
            proof {
                assert(key_lt(a@.skip(i as int), b@.skip(i as int)));
                assert(a@[i as int] != b@[i as int]);
                assert(a@ != b@);
            }
            return KeyCmp::Below;
        }
        if x > y {
            proof {
                assert(key_lt(b@.skip(i as int), a@.skip(i as int)));
                assert(a@ != b@);
            }
            return KeyCmp::Above;
        }
        proof {
            assert(a@.skip(i as int).skip(1) =~= a@.skip(i as int + 1));
            assert(b@.skip(i as int).skip(1) =~= b@.skip(i as int + 1));
            assert(a@.subrange(0, i as int + 1) =~= b@.subrange(0, i as int + 1));
            assert((a@.skip(i as int) == b@.skip(i as int)) == (a@.skip(i as int + 1) == b@.skip(
                i as int + 1,
            ))) by {
                if a@.skip(i as int + 1) == b@.skip(i as int + 1) {
                    assert(a@[i as int] == b@[i as int]);
                    assert forall|t: int|
                        0 <= t < a@.skip(i as int).len() implies a@.skip(i as int)[t] == b@.skip(
                        i as int,
                    )[t] by {
                        if t >= 1 {
                            assert(a@.skip(i as int)[t] == a@.skip(i as int + 1)[t - 1]);
                            assert(b@.skip(i as int)[t] == b@.skip(i as int + 1)[t - 1]);
                        }
                    }
                    assert(a@.skip(i as int) =~= b@.skip(i as int));
                }
            }
        }
        i = i + 1;
    }
}

} // verus!
