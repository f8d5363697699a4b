use vstd::prelude::*;
use crate::entries::{
    Entry, EntryG, Probe, entries_view, find_entry, has_key, key_index, kv_at,
    lemma_bounded_absent, lemma_kv_at_point, lemma_sorted_unique, sorted_strict,
};
use crate::keys::key_lt;

verus! {

/// The bounded in-memory write buffer: entries kept in strictly ascending
/// key order, so a drain hands back an already sorted sequence.
pub struct Memtable {
    pub entries: Vec<Entry>,
}

impl Memtable {
    /// The entries as the specification sees them.
    pub open spec fn rep(self) -> Seq<EntryG> {
        entries_view(self.entries@)
    }

    pub open spec fn wf(self) -> bool {
        sorted_strict(self.rep())
    }

    /// The key-value mapping the buffer holds.
    pub open spec fn as_map(self) -> Map<Seq<u8>, u64> {
        Map::new(
            |k: Seq<u8>| has_key(self.rep(), k),
            |k: Seq<u8>| self.rep()[key_index(self.rep(), k)].value,
        )
    }

    pub fn new() -> (r: Memtable)
        ensures
            r.wf(),
            r.as_map() == Map::<Seq<u8>, u64>::empty(),
            r.entries@.len() == 0,
    {
        let r = Memtable { entries: Vec::new() };
        proof {
            assert(r.as_map() =~= Map::<Seq<u8>, u64>::empty());
        }
        r
    }

    pub fn size(&self) -> (r: usize)
        ensures
            r == self.entries@.len(),
    {
        self.entries.len()
    }

    /// Looks the key up, returning a copy of the stored value.
    pub fn lookup(&self, key: &Vec<u8>) -> (r: Option<u64>)
        requires
            self.wf(),
        ensures
            r == kv_at(self.rep(), key@),
            r == if self.as_map().contains_key(key@) {
                Some(self.as_map()[key@])
            } else {
                None
            },
    {
        proof {
            lemma_sorted_unique(self.rep());
        }
        match find_entry(&self.entries, key) {
            Probe::Found(i) => {
                proof {
                    lemma_kv_at_point(self.rep(), key@, i as int);
                }
                Some(self.entries[i].value)
            },
            Probe::Missing(i) => {
                proof {
                    lemma_bounded_absent(self.rep(), key@, i as int);
                }
                None
            },
        }
    }

    /// Inserts the pair, replacing any entry the key already has.
    pub fn insert(&mut self, key: Vec<u8>, value: u64)
        requires
            old(self).wf(),
        ensures
            final(self).wf(),
            final(self).as_map() == old(self).as_map().insert(key@, value),
            final(self).entries@.len() <= old(self).entries@.len() + 1,
            final(self).entries@.len() >= 1,
    {
        let ghost s_old = self.rep();
        let ghost eg = EntryG { key: key@, value };
        proof {
            lemma_sorted_unique(s_old);
        }
        match find_entry(&self.entries, &key) {
            Probe::Found(i) => {
                self.entries.remove(i);
                self.entries.insert(i, Entry { key, value });
                proof {
                    let s_new = self.rep();
                    assert forall|j: int| 0 <= j < s_new.len() implies s_new[j] == s_old.update(
                        i as int,
                        eg,
                    )[j] by {
                        if j < i {
                            assert(self.entries@[j] == old(self).entries@[j]);
                        } else if j > i {
                            assert(self.entries@[j] == old(self).entries@[j]);
                        }
                    }
                    assert(s_new =~= s_old.update(i as int, eg));
                    assert forall|j: int| 0 <= j < s_new.len() implies s_new[j].key
                        == s_old[j].key by {
                        if j == i {
                            assert(s_old[i as int].key == key@);
                        }
                    }
                    assert(sorted_strict(s_new));
                    lemma_sorted_unique(s_new);
                    let m_old = old(self).as_map();
                    let m_new = self.as_map();
                    assert forall|k2: Seq<u8>| has_key(s_new, k2) == has_key(s_old, k2) by {
                        if has_key(s_new, k2) {
                            let w = choose|w: int| 0 <= w < s_new.len() && s_new[w].key == k2;
                            assert(s_old[w].key == k2);
                        }
                        if has_key(s_old, k2) {
                            let w = choose|w: int| 0 <= w < s_old.len() && s_old[w].key == k2;
                            assert(s_new[w].key == k2);
                        }
                    }
                    assert(s_old[i as int].key == key@);
                    assert(has_key(s_old, key@));
                    assert forall|k2: Seq<u8>|
                        m_new.contains_key(k2) == m_old.insert(key@, value).contains_key(k2) by {
                        assert(has_key(s_new, k2) == has_key(s_old, k2));
                    }
                    assert forall|k2: Seq<u8>| m_new.contains_key(k2) implies m_new[k2]
                        == m_old.insert(key@, value)[k2] by {
                        if k2 == key@ {
                            lemma_kv_at_point(s_new, k2, i as int);
                        } else {
                            let w = key_index(s_old, k2);
                            assert(0 <= w < s_old.len() && s_old[w].key == k2);
                            assert(w != i);
                            lemma_kv_at_point(s_new, k2, w);
                            lemma_kv_at_point(s_old, k2, w);
                        }
                    }
                    assert(m_new =~= m_old.insert(key@, value));
                }
            },
            Probe::Missing(i) => {
                self.entries.insert(i, Entry { key, value });
                proof {
                    let s_new = self.rep();
                    assert forall|j: int| 0 <= j < s_new.len() implies s_new[j] == s_old.insert(
                        i as int,
                        eg,
                    )[j] by {
                        if j < i {
                            assert(self.entries@[j] == old(self).entries@[j]);
                        } else if j > i {
                            assert(self.entries@[j] == old(self).entries@[j - 1]);
                        }
                    }
                    assert(s_new =~= s_old.insert(i as int, eg));
                    assert forall|p: int, q: int| 0 <= p < q < s_new.len() implies key_lt(
                        s_new[p].key,
                        s_new[q].key,
                    ) by {
                        if q < i {
                            assert(key_lt(s_old[p].key, s_old[q].key));
                        } else if p < i && q == i {
                            assert(key_lt(s_old[p].key, eg.key));
                        } else if p == i {
                            assert(key_lt(eg.key, s_old[q - 1].key));
                        } else if p < i {
                            assert(key_lt(s_old[p].key, s_old[q - 1].key));
                        } else {
                            assert(key_lt(s_old[p - 1].key, s_old[q - 1].key));
                        }
                    }
                    assert(sorted_strict(s_new));
                    lemma_sorted_unique(s_new);
                    lemma_bounded_absent(s_old, eg.key, i as int);
                    let m_old = old(self).as_map();
                    let m_new = self.as_map();
                    assert forall|k2: Seq<u8>| has_key(s_new, k2) == (has_key(s_old, k2) || k2
                        == eg.key) by {
                        if has_key(s_new, k2) {
                            let w = choose|w: int| 0 <= w < s_new.len() && s_new[w].key == k2;
                            if w < i {
                                assert(s_old[w].key == k2);
                            } else if w > i {
                                assert(s_old[w - 1].key == k2);
                            }
                        }
                        if has_key(s_old, k2) {
                            let w = choose|w: int| 0 <= w < s_old.len() && s_old[w].key == k2;
                            if w < i {
                                assert(s_new[w].key == k2);
                            } else {
                                assert(s_new[w + 1].key == k2);
                            }
                        }
                        if k2 == eg.key {
                            assert(s_new[i as int].key == k2);
                        }
                    }
                    assert forall|k2: Seq<u8>| m_new.contains_key(k2) implies m_new[k2]
                        == m_old.insert(eg.key, value)[k2] by {
                        if k2 == eg.key {
                            lemma_kv_at_point(s_new, k2, i as int);
                        } else {
                            let w = key_index(s_old, k2);
                            assert(0 <= w < s_old.len() && s_old[w].key == k2);
                            lemma_kv_at_point(s_old, k2, w);
                            if w < i {
                                lemma_kv_at_point(s_new, k2, w);
                            } else {
                                lemma_kv_at_point(s_new, k2, w + 1);
                            }
                        }
                    }
                    assert(m_new =~= m_old.insert(eg.key, value));
                }
            },
        }
    }

    /// Removes the entry the key has, if any.
    pub fn remove(&mut self, key: &Vec<u8>)
        requires
            old(self).wf(),
        ensures
            final(self).wf(),
            final(self).as_map() == old(self).as_map().remove(key@),
            final(self).entries@.len() <= old(self).entries@.len(),
    {
        let ghost s_old = self.rep();
        proof {
            lemma_sorted_unique(s_old);
        }
        match find_entry(&self.entries, key) {
            Probe::Found(i) => {
                self.entries.remove(i);
                proof {
                    let s_new = self.rep();
                    assert forall|j: int| 0 <= j < s_new.len() implies s_new[j] == s_old.remove(
                        i as int,
                    )[j] by {
                        if j < i {
                            assert(self.entries@[j] == old(self).entries@[j]);
                        } else {
                            assert(self.entries@[j] == old(self).entries@[j + 1]);
                        }
                    }
                    assert(s_new =~= s_old.remove(i as int));
                    assert forall|p: int, q: int| 0 <= p < q < s_new.len() implies key_lt(
                        s_new[p].key,
                        s_new[q].key,
                    ) by {
                        if q < i {
                            assert(key_lt(s_old[p].key, s_old[q].key));
                        } else if p < i {
                            assert(key_lt(s_old[p].key, s_old[q + 1].key));
                        } else {
                            assert(key_lt(s_old[p + 1].key, s_old[q + 1].key));
                        }
                    }
                    assert(sorted_strict(s_new));
                    lemma_sorted_unique(s_new);
                    let m_old = old(self).as_map();
                    let m_new = self.as_map();
                    assert forall|k2: Seq<u8>| has_key(s_new, k2) == (has_key(s_old, k2) && k2
                        != key@) by {
                        if has_key(s_new, k2) {
                            let w = choose|w: int| 0 <= w < s_new.len() && s_new[w].key == k2;
                            if w < i {
                                assert(s_old[w].key == k2);
                                assert(s_old[w].key != s_old[i as int].key);
                            } else {
                                assert(s_old[w + 1].key == k2);
                                assert(s_old[i as int].key != s_old[w + 1].key);
                            }
                        }
                        if has_key(s_old, k2) && k2 != key@ {
                            let w = choose|w: int| 0 <= w < s_old.len() && s_old[w].key == k2;
                            assert(w != i);
                            if w < i {
                                assert(s_new[w].key == k2);
                            } else {
                                assert(s_new[w - 1].key == k2);
                            }
                        }
                    }
                    assert forall|k2: Seq<u8>| m_new.contains_key(k2) implies m_new[k2]
                        == m_old.remove(key@)[k2] by {
                        let w = key_index(s_new, k2);
                        assert(0 <= w < s_new.len() && s_new[w].key == k2);
                        lemma_kv_at_point(s_new, k2, w);
                        if w < i {
                            lemma_kv_at_point(s_old, k2, w);
                        } else {
                            lemma_kv_at_point(s_old, k2, w + 1);
                        }
                    }
                    assert(m_new =~= m_old.remove(key@));
                }
            },
            Probe::Missing(i) => {
                proof {
                    lemma_bounded_absent(s_old, key@, i as int);
                    assert(self.as_map() =~= old(self).as_map().remove(key@));
                }
            },
        }
    }

    /// Atomically empties the buffer, handing back its sorted contents.
    pub fn drain(&mut self) -> (r: Vec<Entry>)
        requires
            old(self).wf(),
        ensures
            final(self).wf(),
            final(self).as_map() == Map::<Seq<u8>, u64>::empty(),
            final(self).entries@.len() == 0,
            entries_view(r@) == old(self).rep(),
    {
        let mut out: Vec<Entry> = Vec::new();
        core::mem::swap(&mut self.entries, &mut out);
        proof {
            assert(self.as_map() =~= Map::<Seq<u8>, u64>::empty());
        }
        out
    }
}

} // verus!
