//! The mutable sorted buffer of recent writes, and the set that rotates it
//! into a frozen buffer once a size threshold is crossed.
use vstd::prelude::*;
use vstd::slice::slice_to_vec;
use crate::format::entry_lens_ok;
use crate::keys::{key_eq, key_le, lemma_lex_le_or_lt, lemma_lex_lt_trans, lemma_lex_trichotomy, lex_le, lex_lt};
use crate::model::{
    entries_sorted, kv_view, lemma_lookup_absent, lemma_sorted_lookup_at, lookup_entries, Entry,
    EntryModel,
};

verus! {

/// The buffer's entries after one write of `(k, e)`: inserted in key order,
/// overwriting an equal key in place. Every mutation of a buffer is exactly
/// one such step.
pub open spec fn spec_write(
    es: Seq<(Seq<u8>, EntryModel)>,
    k: Seq<u8>,
    e: EntryModel,
) -> Seq<(Seq<u8>, EntryModel)>
    decreases es.len(),
{
    if es.len() == 0 {
        seq![(k, e)]
    } else if lex_lt(k, es[0].0) {
        seq![(k, e)] + es
    } else if k == es[0].0 {
        seq![(k, e)] + es.skip(1)
    } else {
        seq![es[0]] + spec_write(es.skip(1), k, e)
    }
}

/// In a sorted run, the write lands at the position the probe finds: it
/// overwrites index `i` when the key is already there, else it is spliced in
/// before index `i`.
pub proof fn lemma_spec_write_at(
    es: Seq<(Seq<u8>, EntryModel)>,
    k: Seq<u8>,
    e: EntryModel,
    i: int,
)
    requires
        entries_sorted(es),
        0 <= i <= es.len(),
        forall|j: int| 0 <= j < i ==> lex_lt(#[trigger] es[j].0, k),
        i < es.len() ==> lex_le(k, es[i].0),
    ensures
        spec_write(es, k, e) == (if i < es.len() && es[i].0 == k {
            es.update(i, (k, e))
        } else {
            es.take(i) + seq![(k, e)] + es.skip(i)
        }),
    decreases es.len(),
{
    if es.len() == 0 {
        assert(es.take(i) =~= Seq::<(Seq<u8>, EntryModel)>::empty());
        assert(es.skip(i) =~= Seq::<(Seq<u8>, EntryModel)>::empty());
        assert(es.take(i) + seq![(k, e)] + es.skip(i) =~= seq![(k, e)]);
    } else if i == 0 {
        lemma_lex_trichotomy(k, k);
        if es[0].0 == k {
            assert(!lex_lt(k, es[0].0));
            assert(spec_write(es, k, e) == seq![(k, e)] + es.skip(1));
            assert(seq![(k, e)] + es.skip(1) =~= es.update(0, (k, e)));
        } else {
            assert(lex_lt(k, es[0].0));
            assert(spec_write(es, k, e) == seq![(k, e)] + es);
            assert(seq![(k, e)] + es =~= es.take(0) + seq![(k, e)] + es.skip(0));
        }
    } else {
        assert(lex_lt(es[0].0, k));
        lemma_lex_trichotomy(k, es[0].0);
        assert(!lex_lt(k, es[0].0) && k != es[0].0);
        assert(entries_sorted(es.skip(1))) by {
            assert(forall|p: int, q: int| 0 <= p < q < es.skip(1).len() ==> es.skip(1)[p]
                == es[p + 1] && es.skip(1)[q] == es[q + 1]);
        }
        assert forall|j: int| 0 <= j < i - 1 implies lex_lt(#[trigger] es.skip(1)[j].0, k) by {
            assert(es.skip(1)[j] == es[j + 1]);
        }
        if i - 1 < es.skip(1).len() {
            assert(es.skip(1)[i - 1] == es[i]);
        }
        lemma_spec_write_at(es.skip(1), k, e, i - 1);
        if i < es.len() && es[i].0 == k {
            assert(seq![es[0]] + es.skip(1).update(i - 1, (k, e)) =~= es.update(i, (k, e)));
        } else {
            assert(seq![es[0]] + (es.skip(1).take(i - 1) + seq![(k, e)] + es.skip(1).skip(i - 1))
                =~= es.take(i) + seq![(k, e)] + es.skip(i));
        }
    }
}

/// An ordered mapping from key to entry with unique keys, plus an
/// accumulator approximating the encoded size of everything written into it.
pub struct MemTable {
    entries: Vec<(Vec<u8>, Entry)>,
    size: usize,
}

impl MemTable {
    /// The key-entry pairs in ascending key order.
    pub closed spec fn spec_entries(self) -> Seq<(Seq<u8>, EntryModel)> {
        kv_view(self.entries@)
    }

    /// The approximate byte-size accumulator: it grows with every mutation
    /// and never shrinks, so it bounds the encoded size from above.
    pub closed spec fn spec_bytes(self) -> usize {
        self.size
    }

    /// Keys are strictly increasing and every length fits the format.
    pub closed spec fn wf(self) -> bool {
        &&& entries_sorted(self.spec_entries())
        &&& entry_lens_ok(self.spec_entries())
    }

    /// The entry this buffer currently holds for `k`, if any.
    pub open spec fn spec_lookup(self, k: Seq<u8>) -> Option<EntryModel> {
        lookup_entries(self.spec_entries(), k)
    }

    /// A well-formed buffer is sorted and fits the format's length words.
    pub proof fn lemma_wf_facts(&self)
        requires
            self.wf(),
        ensures
            entries_sorted(self.spec_entries()),
            entry_lens_ok(self.spec_entries()),
    {
    }

    /// Opens an empty buffer.
    pub fn new() -> (r: Self)
        ensures
            r.wf(),
            r.spec_entries() == Seq::<(Seq<u8>, EntryModel)>::empty(),
            r.spec_bytes() == 0,
    {
        let r = Self { entries: Vec::new(), size: 0 };
        proof {
            assert(r.spec_entries() =~= Seq::<(Seq<u8>, EntryModel)>::empty());
        }
        r
    }

    /// Position of the first key at or above `key`: the slot an insertion
    /// for `key` takes.
    #[verifier::loop_isolation(false)]
    fn seek(&self, key: &[u8]) -> (i: usize)
        requires
            self.wf(),
        ensures
            0 <= i <= self.spec_entries().len(),
            forall|j: int| 0 <= j < i ==> lex_lt(#[trigger] self.spec_entries()[j].0, key@),
            i < self.spec_entries().len() ==> lex_le(key@, self.spec_entries()[i as int].0),
    {
        let ghost m = self.spec_entries();
        let n = self.entries.len();
        let mut lo: usize = 0;
        let mut hi: usize = n;
        while lo < hi
            invariant
                0 <= lo <= hi <= n,
                forall|j: int| 0 <= j < lo ==> lex_lt(#[trigger] m[j].0, key@),
                forall|j: int| hi <= j < n ==> lex_le(key@, #[trigger] m[j].0),
            decreases hi - lo,
        {
            let mid = lo + (hi - lo) / 2;
            let sep = &self.entries[mid].0;
            assert(sep@ == m[mid as int].0);
            if key_le(key, sep.as_slice()) {
                proof {
                    assert forall|j: int| mid <= j < n implies lex_le(key@, #[trigger] m[j].0) by {
                        if j > mid {
                            assert(lex_lt(m[mid as int].0, m[j].0));
                            if key@ != m[mid as int].0 {
                                lemma_lex_lt_trans(key@, m[mid as int].0, m[j].0);
                            }
                        }
                    }
                }
                hi = mid;
            } else {
                proof {
                    lemma_lex_le_or_lt(key@, m[mid as int].0);
                    assert forall|j: int| 0 <= j <= mid implies lex_lt(#[trigger] m[j].0, key@) by {
                        if j < mid {
                            assert(lex_lt(m[j].0, m[mid as int].0));
                            lemma_lex_lt_trans(m[j].0, m[mid as int].0, key@);
                        }
                    }
                }
                lo = mid + 1;
            }
        }
        lo
    }

    /// Writes `key` to `entry`, inserting or overwriting in place, and grows
    /// the size accumulator by `added` without overflowing.
    #[verifier::loop_isolation(false)]
    fn write_entry(&mut self, key: &[u8], entry: Entry, added: usize)
        requires
            old(self).wf(),
            key@.len() <= u32::MAX,
            entry@ matches EntryModel::Put(v) ==> v.len() <= u32::MAX,
        ensures
            final(self).wf(),
            forall|k: Seq<u8>| final(self).spec_lookup(k) == (if k == key@ {
                Some(entry@)
            } else {
                old(self).spec_lookup(k)
            }),
            final(self).spec_bytes() == old(self).spec_bytes().saturating_add(added),
            final(self).spec_entries() == spec_write(old(self).spec_entries(), key@, entry@),
    {
        let ghost m = self.spec_entries();
        let ghost e = entry@;
        let n = self.entries.len();
        let i = self.seek(key);
        let kvec = slice_to_vec(key);
        let hit = i < n && key_eq(self.entries[i].0.as_slice(), key);
        if hit {
            self.entries[i] = (kvec, entry);
            proof {
                assert(self.spec_entries() =~= m.update(i as int, (key@, e)));
            }
        } else {
            self.entries.insert(i, (kvec, entry));
            proof {
                self.entries@.insert_ensures(i as int, (kvec, entry));
                assert forall|j: int| 0 <= j < self.spec_entries().len() implies
                    #[trigger] self.spec_entries()[j] == (if j < i {
                        m[j]
                    } else if j == i {
                        (key@, e)
                    } else {
                        m[j - 1]
                    }) by {
                    if j < i {
                        assert(self.entries@[j] == old(self).entries@[j]);
                    } else if j > i {
                        assert(self.entries@[j] == old(self).entries@[j - 1]);
                    }
                }
            }
        }
        self.size = self.size.saturating_add(added);
        proof {
            let m2 = self.spec_entries();
            lemma_spec_write_at(m, key@, e, i as int);
            if hit {
                assert(m2 == spec_write(m, key@, e));
            } else {
                assert(m2 =~= m.take(i as int) + seq![(key@, e)] + m.skip(i as int));
                assert(m2 == spec_write(m, key@, e));
            }
            // Sortedness: around position i everything keeps its order.
            assert forall|p: int, q: int| 0 <= p < q < m2.len() implies lex_lt(m2[p].0, m2[q].0) by {
                if hit {
                    if p != i && q != i {
                        assert(lex_lt(m[p].0, m[q].0));
                    } else if p == i {
                        assert(lex_lt(m[p].0, m[q].0));
                    } else {
                        assert(lex_lt(m[p].0, m[q].0));
                    }
                } else {
                    if q < i {
                        assert(lex_lt(m[p].0, m[q].0));
                    } else if q == i {
                        assert(lex_lt(m[p].0, key@));
                    } else if p > i {
                        assert(lex_lt(m[p - 1].0, m[q - 1].0));
                    } else if p == i {
                        // key < m[q - 1]: key <= m[i] (seek) and m[i] <= m[q - 1].
                        assert(lex_le(key@, m[i as int].0));
                        if i < q - 1 {
                            assert(lex_lt(m[i as int].0, m[q - 1].0));
                            crate::keys::lemma_lex_le_lt_trans(key@, m[i as int].0, m[q - 1].0);
                        }
                        // key != m[i] since the probe missed.
                    } else {
                        assert(lex_lt(m[p].0, key@));
                        if q - 1 > i || (i < m.len() && q - 1 == i) {
                            assert(lex_lt(m[p].0, m[q - 1].0));
                        }
                    }
                }
            }
            assert forall|j: int| 0 <= j < m2.len() implies #[trigger] m2[j].0.len() <= u32::MAX
                && (m2[j].1 matches EntryModel::Put(v) ==> v.len() <= u32::MAX) by {
                if hit {
                    if j != i {
                        assert(m2[j] == m[j]);
                        assert(m[j].0.len() <= u32::MAX);
                    }
                } else {
                    if j < i {
                        assert(m2[j] == m[j]);
                        assert(m[j].0.len() <= u32::MAX);
                    } else if j > i {
                        assert(m2[j] == m[j - 1]);
                        assert(m[j - 1].0.len() <= u32::MAX);
                    }
                }
            }
            assert(entry_lens_ok(m2));
            // Lookup: the written key reads back, every other key is untouched.
            assert forall|k: Seq<u8>| final(self).spec_lookup(k) == (if k == key@ {
                Some(e)
            } else {
                old(self).spec_lookup(k)
            }) by {
                if k == key@ {
                    assert(m2[i as int] == (key@, e));
                    lemma_sorted_lookup_at(m2, i as int);
                } else {
                    if old(self).spec_lookup(k) is Some {
                        crate::model::lemma_lookup_present(m, k);
                        let j = choose|j: int| 0 <= j < m.len() && m[j].0 == k && m[j].1
                            == lookup_entries(m, k)->Some_0;
                        let j2: int = if hit {
                            j
                        } else if j < i {
                            j
                        } else {
                            j + 1
                        };
                        assert(m2[j2] == m[j]);
                        lemma_sorted_lookup_at(m2, j2);
                    } else {
                        assert(forall|j: int| 0 <= j < m.len() ==> m[j].0 != k) by {
                            if exists|j: int| 0 <= j < m.len() && #[trigger] m[j].0 == k {
                                let j = choose|j: int| 0 <= j < m.len() && #[trigger] m[j].0 == k;
                                lemma_sorted_lookup_at(m, j);
                            }
                        }
                        assert forall|j2: int| 0 <= j2 < m2.len() implies m2[j2].0 != k by {
                            if hit {
                                if j2 != i {
                                    assert(m2[j2] == m[j2]);
                                }
                            } else {
                                if j2 < i {
                                    assert(m2[j2] == m[j2]);
                                } else if j2 > i {
                                    assert(m2[j2] == m[j2 - 1]);
                                }
                            }
                        }
                        lemma_lookup_absent(m2, k);
                    }
                }
            }
        }
    }

    /// Records a value for `key`, overwriting any previous entry.
    pub fn put(&mut self, key: &[u8], value: &[u8])
        requires
            old(self).wf(),
            key@.len() <= u32::MAX,
            value@.len() <= u32::MAX,
        ensures
            final(self).wf(),
            forall|k: Seq<u8>| final(self).spec_lookup(k) == (if k == key@ {
                Some(EntryModel::Put(value@))
            } else {
                old(self).spec_lookup(k)
            }),
            final(self).spec_bytes() == old(self).spec_bytes().saturating_add(
                9usize.saturating_add(key@.len() as usize).saturating_add(value@.len() as usize),
            ),
            final(self).spec_entries() == spec_write(
                old(self).spec_entries(),
                key@,
                EntryModel::Put(value@),
            ),
    {
        let added = 9usize.saturating_add(key.len()).saturating_add(value.len());
        let vvec = slice_to_vec(value);
        self.write_entry(key, Entry::Put(vvec), added);
    }

    /// Records a tombstone for `key`: a real entry that shadows older values.
    pub fn delete(&mut self, key: &[u8])
        requires
            old(self).wf(),
            key@.len() <= u32::MAX,
        ensures
            final(self).wf(),
            forall|k: Seq<u8>| final(self).spec_lookup(k) == (if k == key@ {
                Some(EntryModel::Delete)
            } else {
                old(self).spec_lookup(k)
            }),
            final(self).spec_bytes() == old(self).spec_bytes().saturating_add(
                9usize.saturating_add(key@.len() as usize),
            ),
            final(self).spec_entries() == spec_write(
                old(self).spec_entries(),
                key@,
                EntryModel::Delete,
            ),
    {
        let added = 9usize.saturating_add(key.len());
        self.write_entry(key, Entry::Delete, added);
    }

    /// The current entry for `key`, value or tombstone, if one exists.
    pub fn get(&self, key: &[u8]) -> (r: Option<&Entry>)
        requires
            self.wf(),
        ensures
            match r {
                Some(e) => self.spec_lookup(key@) == Some(e@),
                None => self.spec_lookup(key@) is None,
            },
    {
        let ghost m = self.spec_entries();
        let n = self.entries.len();
        let i = self.seek(key);
        if i < n && key_eq(self.entries[i].0.as_slice(), key) {
            proof {
                lemma_sorted_lookup_at(m, i as int);
            }
            Some(&self.entries[i].1)
        } else {
            proof {
                assert forall|j: int| 0 <= j < m.len() implies m[j].0 != key@ by {
                    lemma_lex_trichotomy(m[j].0, key@);
                    if j >= i {
                        if i < n && j > i {
                            assert(lex_le(key@, m[i as int].0));
                            assert(lex_lt(m[i as int].0, m[j].0));
                            crate::keys::lemma_lex_le_lt_trans(key@, m[i as int].0, m[j].0);
                        }
                    }
                }
                lemma_lookup_absent(m, key@);
            }
            None
        }
    }

    /// Number of distinct keys held.
    pub fn len(&self) -> (r: usize)
        ensures
            r == self.spec_entries().len(),
    {
        proof {
            assert(self.spec_entries().len() == self.entries@.len());
        }
        self.entries.len()
    }

    /// True when nothing has been written.
    pub fn is_empty(&self) -> (r: bool)
        ensures
            r == (self.spec_entries().len() == 0),
    {
        proof {
            assert(self.spec_entries().len() == self.entries@.len());
        }
        self.entries.is_empty()
    }

    /// The size accumulator, read for the rotation policy.
    pub fn approx_bytes(&self) -> (r: usize)
        ensures
            r == self.spec_bytes(),
    {
        self.size
    }

    /// The `i`-th key-entry pair in ascending key order.
    pub fn entry_at(&self, i: usize) -> (r: &(Vec<u8>, Entry))
        requires
            i < self.spec_entries().len(),
        ensures
            (r.0@, r.1@) == self.spec_entries()[i as int],
    {
        &self.entries[i]
    }
}

/// Exactly one active memtable, plus the size threshold that decides when it
/// is sealed and handed back for flushing.
pub struct MemTableSet {
    active: MemTable,
    max_bytes: usize,
}

impl MemTableSet {
    /// The buffer currently accepting writes.
    pub closed spec fn spec_active(self) -> MemTable {
        self.active
    }

    /// The rotation threshold in bytes.
    pub closed spec fn spec_max(self) -> usize {
        self.max_bytes
    }

    /// The active buffer is well formed.
    pub open spec fn wf(self) -> bool {
        self.spec_active().wf()
    }

    /// Opens a set with an empty active buffer and the given threshold.
    pub fn with_capacity(memtable_max_bytes: usize) -> (r: Self)
        ensures
            r.wf(),
            r.spec_active().spec_entries() == Seq::<(Seq<u8>, EntryModel)>::empty(),
            r.spec_active().spec_bytes() == 0,
            r.spec_max() == memtable_max_bytes,
    {
        Self { active: MemTable::new(), max_bytes: memtable_max_bytes }
    }

    /// Swaps a fresh buffer in and returns the sealed one.
    fn swap_out(&mut self) -> (r: MemTable)
        ensures
            r == old(self).spec_active(),
            final(self).spec_active().wf(),
            final(self).spec_active().spec_entries() == Seq::<(Seq<u8>, EntryModel)>::empty(),
            final(self).spec_active().spec_bytes() == 0,
            final(self).spec_max() == old(self).spec_max(),
    {
        let mut fresh = MemTable::new();
        core::mem::swap(&mut self.active, &mut fresh);
        fresh
    }

    /// Writes a value; if the mutation pushes the active buffer to or past
    /// the threshold, seals it and returns it for flushing.
    pub fn put(&mut self, key: &[u8], value: &[u8]) -> (r: Option<MemTable>)
        requires
            old(self).wf(),
            key@.len() <= u32::MAX,
            value@.len() <= u32::MAX,
        ensures
            final(self).wf(),
            final(self).spec_max() == old(self).spec_max(),
            ({
                let written = spec_write(
                    old(self).spec_active().spec_entries(),
                    key@,
                    EntryModel::Put(value@),
                );
                let grown = old(self).spec_active().spec_bytes().saturating_add(
                    9usize.saturating_add(key@.len() as usize).saturating_add(
                        value@.len() as usize,
                    ),
                );
                match r {
                    Some(frozen) => {
                        &&& frozen.wf()
                        &&& frozen.spec_bytes() == grown
                        &&& frozen.spec_bytes() >= old(self).spec_max()
                        &&& frozen.spec_entries() == written
                        &&& forall|k: Seq<u8>| frozen.spec_lookup(k) == (if k == key@ {
                            Some(EntryModel::Put(value@))
                        } else {
                            old(self).spec_active().spec_lookup(k)
                        })
                        &&& final(self).spec_active().spec_entries() == Seq::<(
                            Seq<u8>,
                            EntryModel,
                        )>::empty()
                    }
                    None => {
                        &&& final(self).spec_active().spec_bytes() == grown
                        &&& final(self).spec_active().spec_bytes() < old(self).spec_max()
                        &&& final(self).spec_active().spec_entries() == written
                        &&& forall|k: Seq<u8>| final(self).spec_active().spec_lookup(k) == (if k
                            == key@ {
                            Some(EntryModel::Put(value@))
                        } else {
                            old(self).spec_active().spec_lookup(k)
                        })
                    }
                }
            }),
    {
        self.active.put(key, value);
        if self.active.approx_bytes() >= self.max_bytes {
            Some(self.swap_out())
        } else {
            None
        }
    }

    /// Writes a tombstone; seals and returns the buffer as `put` does.
    pub fn delete(&mut self, key: &[u8]) -> (r: Option<MemTable>)
        requires
            old(self).wf(),
            key@.len() <= u32::MAX,
        ensures
            final(self).wf(),
            final(self).spec_max() == old(self).spec_max(),
            ({
                let written = spec_write(
                    old(self).spec_active().spec_entries(),
                    key@,
                    EntryModel::Delete,
                );
                let grown = old(self).spec_active().spec_bytes().saturating_add(
                    9usize.saturating_add(key@.len() as usize),
                );
                match r {
                    Some(frozen) => {
                        &&& frozen.wf()
                        &&& frozen.spec_bytes() == grown
                        &&& frozen.spec_bytes() >= old(self).spec_max()
                        &&& frozen.spec_entries() == written
                        &&& forall|k: Seq<u8>| frozen.spec_lookup(k) == (if k == key@ {
                            Some(EntryModel::Delete)
                        } else {
                            old(self).spec_active().spec_lookup(k)
                        })
                        &&& final(self).spec_active().spec_entries() == Seq::<(
                            Seq<u8>,
                            EntryModel,
                        )>::empty()
                    }
                    None => {
                        &&& final(self).spec_active().spec_bytes() == grown
                        &&& final(self).spec_active().spec_bytes() < old(self).spec_max()
                        &&& final(self).spec_active().spec_entries() == written
                        &&& forall|k: Seq<u8>| final(self).spec_active().spec_lookup(k) == (if k
                            == key@ {
                            Some(EntryModel::Delete)
                        } else {
                            old(self).spec_active().spec_lookup(k)
                        })
                    }
                }
            }),
    {
        self.active.delete(key);
        if self.active.approx_bytes() >= self.max_bytes {
            Some(self.swap_out())
        } else {
            None
        }
    }

    /// The current entry for `key` among recent writes.
    pub fn get(&self, key: &[u8]) -> (r: Option<&Entry>)
        requires
            self.wf(),
        ensures
            match r {
                Some(e) => self.spec_active().spec_lookup(key@) == Some(e@),
                None => self.spec_active().spec_lookup(key@) is None,
            },
    {
        self.active.get(key)
    }

    /// Seals the active buffer unconditionally and returns it, unless it is
    /// empty: swapping one empty buffer for another publishes nothing.
    pub fn rotate(&mut self) -> (r: Option<MemTable>)
        requires
            old(self).wf(),
        ensures
            final(self).wf(),
            final(self).spec_max() == old(self).spec_max(),
            match r {
                Some(frozen) => frozen == old(self).spec_active() && frozen.wf()
                    && old(self).spec_active().spec_entries().len() > 0
                    && final(self).spec_active().spec_entries() == Seq::<(
                    Seq<u8>,
                    EntryModel,
                )>::empty(),
                None => old(self).spec_active().spec_entries().len() == 0 && *final(self)
                    == *old(self),
            },
    {
        if self.active.is_empty() {
            None
        } else {
            Some(self.swap_out())
        }
    }
}

} // verus!
