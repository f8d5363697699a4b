use vstd::prelude::*;
use crate::keys::{key_lt, key_compare, KeyCmp, lemma_key_lt_irrefl, lemma_key_lt_trans};

verus! {

/// A key-value pair as the specification sees it.
pub struct EntryG {
    pub key: Seq<u8>,
    pub value: u64,
}

/// A key-value pair as the program holds it.
pub struct Entry {
    pub key: Vec<u8>,
    pub value: u64,
}

pub open spec fn entry_view(e: Entry) -> EntryG {
    EntryG { key: e.key@, value: e.value }
}

pub open spec fn entries_view(s: Seq<Entry>) -> Seq<EntryG> {
    s.map_values(|e: Entry| entry_view(e))
}

/// The entries are in strictly ascending key order.
pub open spec fn sorted_strict(s: Seq<EntryG>) -> bool {
    forall|i: int, j: int| 0 <= i < j < s.len() ==> key_lt(s[i].key, s[j].key)
}

/// No two entries share a key.
pub open spec fn unique_keys(s: Seq<EntryG>) -> bool {
    forall|i: int, j: int| 0 <= i < j < s.len() ==> s[i].key != s[j].key
}

/// Some entry holds the key k.
pub open spec fn has_key(s: Seq<EntryG>, k: Seq<u8>) -> bool {
    exists|i: int| 0 <= i < s.len() && s[i].key == k
}

/// The position of the entry holding k, when one exists.
pub open spec fn key_index(s: Seq<EntryG>, k: Seq<u8>) -> int {
    choose|i: int| 0 <= i < s.len() && s[i].key == k
}

/// The value stored under k, or None when no entry holds k.
pub open spec fn kv_at(s: Seq<EntryG>, k: Seq<u8>) -> Option<u64> {
    if has_key(s, k) {
        Some(s[key_index(s, k)].value)
    } else {
        None
    }
}

pub proof fn lemma_sorted_unique(s: Seq<EntryG>)
    requires
        sorted_strict(s),
    ensures
        unique_keys(s),
{
    assert forall|i: int, j: int| 0 <= i < j < s.len() implies s[i].key != s[j].key by {
        if s[i].key == s[j].key {
            lemma_key_lt_irrefl(s[i].key);
        }
    }
}

/// When keys are unique and position i holds k, the lookup lands on i.
pub proof fn lemma_kv_at_point(s: Seq<EntryG>, k: Seq<u8>, i: int)
    requires
        unique_keys(s),
        0 <= i < s.len(),
        s[i].key == k,
    ensures
        has_key(s, k),
        key_index(s, k) == i,
        kv_at(s, k) == Some(s[i].value),
{
    assert(has_key(s, k));
    let j = key_index(s, k);
    assert(0 <= j < s.len() && s[j].key == k);
    if j < i {
        assert(s[j].key != s[i].key);
    } else if j > i {
        assert(s[i].key != s[j].key);
    }
}

/// The result of searching a sorted entry list for a key.
pub enum Probe {
    /// The key is at this position.
    Found(usize),
    /// The key is absent; it would belong at this position.
    Missing(usize),
}

/// Binary search over a strictly sorted entry list.
pub fn find_entry(entries: &Vec<Entry>, key: &Vec<u8>) -> (r: Probe)
    requires
        sorted_strict(entries_view(entries@)),
    ensures
        match r {
            Probe::Found(i) => i < entries@.len() && entries@[i as int].key@ == key@,
            Probe::Missing(i) => {
                &&& i <= entries@.len()
                &&& forall|j: int|
                    0 <= j < i ==> key_lt(entries_view(entries@)[j].key, key@)
                &&& forall|j: int|
                    i <= j < entries@.len() ==> key_lt(key@, entries_view(entries@)[j].key)
            },
        },
{
    let ghost s = entries_view(entries@);
    let mut lo: usize = 0;
    let mut hi: usize = entries.len();
    while lo < hi
        invariant
            lo <= hi <= entries.len(),
            s == entries_view(entries@),
            sorted_strict(s),
            forall|j: int| 0 <= j < lo ==> key_lt(s[j].key, key@),
            forall|j: int| hi <= j < s.len() ==> key_lt(key@, s[j].key),
        decreases hi - lo,
    {
        let mid = lo + (hi - lo) / 2;
        proof {
            assert(s[mid as int].key == entries@[mid as int].key@);
        }
        match key_compare(&entries[mid].key, key) {
            KeyCmp::Same => {
                return Probe::Found(mid);
            },
            KeyCmp::Below => {
                proof {
                    assert forall|j: int| 0 <= j < mid + 1 implies key_lt(s[j].key, key@) by {
                        if j < mid {
                            lemma_key_lt_trans(s[j].key, s[mid as int].key, key@);
                        }
                    }
                }
                lo = mid + 1;
            },
            KeyCmp::Above => {
                proof {
                    assert forall|j: int| mid <= j < s.len() implies key_lt(key@, s[j].key) by {
                        if j > mid {
                            lemma_key_lt_trans(key@, s[mid as int].key, s[j].key);
                        }
                    }
                }
                hi = mid;
            },
        }
    }
    Probe::Missing(lo)
}

/// A key that every present key compares away from is absent.
pub proof fn lemma_bounded_absent(s: Seq<EntryG>, k: Seq<u8>, i: int)
    requires
        0 <= i <= s.len(),
        forall|j: int| 0 <= j < i ==> key_lt(s[j].key, k),
        forall|j: int| i <= j < s.len() ==> key_lt(k, s[j].key),
    ensures
        !has_key(s, k),
        kv_at(s, k) == None::<u64>,
{
    assert forall|j: int| 0 <= j < s.len() implies s[j].key != k by {
        if s[j].key == k {
            lemma_key_lt_irrefl(k);
        }
    }
}

} // verus!
