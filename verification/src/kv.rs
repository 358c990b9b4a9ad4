//! The storage engine: writes land in the active memtable; a rotation seals
//! it and synchronously builds, publishes and reopens a sorted table; reads
//! consult the memtable first, then every published table newest to oldest,
//! and the first entry found, value or tombstone, is authoritative.
use vstd::prelude::*;
use crate::builder::flush_memtable_to_sstable;
use crate::errors::StoreError;
use crate::format::TableId;
use crate::memtable::{spec_write, MemTable, MemTableSet};
use crate::model::{Entry, EntryModel};
use crate::reader::SsTableReader;
use crate::table::{table_entries, table_index, table_lookup, table_wf};

verus! {

/// Decimal digits of `n`, most significant first.
pub open spec fn dec_digits(n: nat) -> Seq<u8>
    decreases n,
{
    if n < 10 {
        seq![(48 + n) as u8]
    } else {
        dec_digits(n / 10).push((48 + n % 10) as u8)
    }
}

/// `s` left-padded with ASCII zeroes to at least six digits.
pub open spec fn zero_pad6(s: Seq<u8>) -> Seq<u8> {
    if s.len() >= 6 {
        s
    } else {
        Seq::new((6 - s.len()) as nat, |i: int| 48u8) + s
    }
}

/// `<dir>/sst/` as bytes.
pub open spec fn sst_dir_of(dir: Seq<u8>) -> Seq<u8> {
    dir + seq![47u8, 115u8, 115u8, 116u8, 47u8]
}

/// `<dir>/sst/<id, zero-padded to six digits>.sst` as bytes.
pub open spec fn sst_final_name(dir: Seq<u8>, id: TableId) -> Seq<u8> {
    sst_dir_of(dir) + zero_pad6(dec_digits(id as nat)) + seq![46u8, 115u8, 115u8, 116u8]
}

/// The temporary name the same table is built under: final name plus `.tmp`.
pub open spec fn sst_tmp_name(dir: Seq<u8>, id: TableId) -> Seq<u8> {
    sst_final_name(dir, id) + seq![46u8, 116u8, 109u8, 112u8]
}

/// The zero-padded decimal digits of `id`.
#[verifier::loop_isolation(false)]
fn decimal_name(id: TableId) -> (r: Vec<u8>)
    ensures
        r@ == zero_pad6(dec_digits(id as nat)),
{
    let mut digits: Vec<u8> = Vec::new();
    let mut x = id;
    proof {
        assert(dec_digits(id as nat) =~= dec_digits(x as nat) + digits@);
    }
    while x >= 10
        invariant
            dec_digits(id as nat) == dec_digits(x as nat) + digits@,
        decreases x,
    {
        let d = 48 + (x % 10) as u8;
        let ghost dprev = digits@;
        digits.insert(0, d);
        x = x / 10;
        proof {
            dprev.insert_ensures(0, d);
            assert(digits@ =~= seq![d] + dprev);
            assert(dec_digits(id as nat) =~= dec_digits(x as nat) + digits@);
        }
    }
    let d0 = 48 + x as u8;
    digits.insert(0, d0);
    proof {
        assert(dec_digits(x as nat) == seq![d0]);
        assert(dec_digits(id as nat) =~= digits@);
    }
    let dlen = digits.len();
    let mut out: Vec<u8> = Vec::new();
    if dlen < 6 {
        let mut z: usize = 6 - dlen;
        while z > 0
            invariant
                z <= 6 - dlen,
                out@ =~= Seq::new((6 - dlen - z) as nat, |i: int| 48u8),
            decreases z,
        {
            out.push(48);
            z = z - 1;
            proof {
                assert(out@ =~= Seq::new((6 - dlen - z) as nat, |i: int| 48u8));
            }
        }
    }
    out.append(&mut digits);
    proof {
        assert(out@ =~= zero_pad6(dec_digits(id as nat)));
    }
    out
}

/// First authoritative entry for `k` across published tables, newest last in
/// `ts` and probed first.
pub open spec fn tables_lookup(ts: Seq<(TableId, Vec<u8>, SsTableReader)>, k: Seq<u8>) -> Option<
    EntryModel,
>
    decreases ts.len(),
{
    if ts.len() == 0 {
        None
    } else {
        match table_lookup(ts.last().2.spec_file(), k) {
            Some(e) => Some(e),
            None => tables_lookup(ts.drop_last(), k),
        }
    }
}

/// One mutation of the store, as the engine's contracts describe it.
pub enum Op {
    Put(Seq<u8>, Seq<u8>),
    Delete(Seq<u8>),
}

/// The key an operation touches.
pub open spec fn op_key(o: Op) -> Seq<u8> {
    match o {
        Op::Put(k, _) => k,
        Op::Delete(k) => k,
    }
}

/// The entry an operation leaves behind for its key.
pub open spec fn op_entry(o: Op) -> EntryModel {
    match o {
        Op::Put(_, v) => EntryModel::Put(v),
        Op::Delete(_) => EntryModel::Delete,
    }
}

/// The view of key `k` after replaying `ops` over a base view: each
/// operation rewrites its own key and leaves every other key alone, which is
/// exactly what `put` and `delete` ensure of `spec_entry`.
pub open spec fn replay(
    base: spec_fn(Seq<u8>) -> Option<EntryModel>,
    ops: Seq<Op>,
    k: Seq<u8>,
) -> Option<EntryModel>
    decreases ops.len(),
{
    if ops.len() == 0 {
        base(k)
    } else if op_key(ops.last()) == k {
        Some(op_entry(ops.last()))
    } else {
        replay(base, ops.drop_last(), k)
    }
}

/// Last write wins: after any sequence of operations, the entry for a key is
/// decided by the most recent operation on that key alone — the value of the
/// last put, or a tombstone from the last delete.
pub proof fn lemma_last_write_wins(
    base: spec_fn(Seq<u8>) -> Option<EntryModel>,
    ops: Seq<Op>,
    k: Seq<u8>,
    i: int,
)
    requires
        0 <= i < ops.len(),
        op_key(ops[i]) == k,
        forall|j: int| i < j < ops.len() ==> op_key(#[trigger] ops[j]) != k,
    ensures
        replay(base, ops, k) == Some(op_entry(ops[i])),
    decreases ops.len(),
{
    if i == ops.len() - 1 {
        assert(ops.last() == ops[i]);
    } else {
        assert(op_key(ops.last()) != k);
        assert(ops.drop_last()[i] == ops[i]);
        assert(forall|j: int| i < j < ops.drop_last().len() ==> op_key(
            #[trigger] ops.drop_last()[j],
        ) != k) by {
            assert(forall|j: int| 0 <= j < ops.drop_last().len() ==> ops.drop_last()[j] == ops[j]);
        }
        lemma_last_write_wins(base, ops.drop_last(), k, i);
    }
}

/// A key no operation touched still answers as the base view does; in a
/// fresh engine that is absence.
pub proof fn lemma_untouched_key(
    base: spec_fn(Seq<u8>) -> Option<EntryModel>,
    ops: Seq<Op>,
    k: Seq<u8>,
)
    requires
        forall|j: int| 0 <= j < ops.len() ==> op_key(#[trigger] ops[j]) != k,
    ensures
        replay(base, ops, k) == base(k),
    decreases ops.len(),
{
    if ops.len() > 0 {
        assert(forall|j: int| 0 <= j < ops.drop_last().len() ==> ops.drop_last()[j] == ops[j]);
        lemma_untouched_key(base, ops.drop_last(), k);
    }
}

/// The log-structured-merge engine: one active memtable, an append-only list
/// of published tables (newest last), and the counter that numbers them.
pub struct LsmEngine {
    data_dir: Vec<u8>,
    memtables: MemTableSet,
    sstables: Vec<(TableId, Vec<u8>, SsTableReader)>,
    block_bytes: usize,
    next_table_id: TableId,
}

/// Exactly one table was published onto `prev`'s list: it stands last,
/// numbered and named by the old counter, and holds exactly the entries
/// `written`, answering lookups as they do.
pub open spec fn published_one(
    prev: LsmEngine,
    now: LsmEngine,
    written: Seq<(Seq<u8>, EntryModel)>,
) -> bool {
    &&& now.spec_tables().len() == prev.spec_tables().len() + 1
    &&& now.spec_tables().drop_last() == prev.spec_tables()
    &&& now.spec_tables().last().0 == prev.spec_next_id()
    &&& now.spec_tables().last().1@ == sst_final_name(prev.spec_dir(), prev.spec_next_id())
    &&& table_entries(now.spec_tables().last().2.spec_file()) == written
    &&& (forall|k: Seq<u8>| table_lookup(now.spec_tables().last().2.spec_file(), k)
        == crate::model::lookup_entries(written, k))
    &&& now.spec_next_id() == prev.spec_next_id() + 1
}

impl LsmEngine {
    /// The published tables, newest last.
    pub closed spec fn spec_tables(self) -> Seq<(TableId, Vec<u8>, SsTableReader)> {
        self.sstables@
    }

    /// The memtable set.
    pub closed spec fn spec_mems(self) -> MemTableSet {
        self.memtables
    }

    /// The next table number to be allocated.
    pub closed spec fn spec_next_id(self) -> TableId {
        self.next_table_id
    }

    /// The data directory prefix of every table path.
    pub closed spec fn spec_dir(self) -> Seq<u8> {
        self.data_dir@
    }

    /// The block size target handed to every builder run.
    pub closed spec fn spec_block_bytes(self) -> usize {
        self.block_bytes
    }

    /// Every layer is sound: the memtable is well formed, every published
    /// table is fully well formed, and table numbers increase, all below the
    /// counter.
    pub closed spec fn wf(self) -> bool {
        &&& self.memtables.wf()
        &&& forall|t: int| 0 <= t < self.sstables@.len() ==> (#[trigger] self.sstables@[t].2).wf()
            && table_wf(self.sstables@[t].2.spec_file())
        &&& forall|t: int| 0 <= t < self.sstables@.len() ==> (#[trigger] self.sstables@[t].0)
            < self.next_table_id
        &&& forall|t1: int, t2: int| 0 <= t1 < t2 < self.sstables@.len()
            ==> (#[trigger] self.sstables@[t1].0) < (#[trigger] self.sstables@[t2].0)
    }

    /// The entry the whole engine currently holds for `k`: the most recent
    /// write wins, and a tombstone at any layer shadows all older layers.
    pub open spec fn spec_entry(self, k: Seq<u8>) -> Option<EntryModel> {
        match self.spec_mems().spec_active().spec_lookup(k) {
            Some(e) => Some(e),
            None => tables_lookup(self.spec_tables(), k),
        }
    }

    /// What `get` returns for `k`: the value of the most recent put, absence
    /// after a delete or when the key was never written.
    pub open spec fn spec_get(self, k: Seq<u8>) -> Option<Seq<u8>> {
        match self.spec_entry(k) {
            Some(EntryModel::Put(v)) => Some(v),
            _ => None,
        }
    }

    /// Opens an engine with no published tables and an empty memtable.
    pub fn new(data_dir: &[u8], memtable_max_bytes: usize, block_bytes: usize) -> (r: Self)
        ensures
            r.wf(),
            r.spec_tables().len() == 0,
            r.spec_next_id() == 1,
            r.spec_dir() == data_dir@,
            r.spec_block_bytes() == block_bytes,
            r.spec_mems().spec_max() == memtable_max_bytes,
            r.spec_mems().spec_active().spec_entries() == Seq::<(Seq<u8>, EntryModel)>::empty(),
            r.spec_mems().spec_active().spec_bytes() == 0,
            forall|k: Seq<u8>| r.spec_entry(k) is None,
    {
        let r = LsmEngine {
            data_dir: vstd::slice::slice_to_vec(data_dir),
            memtables: MemTableSet::with_capacity(memtable_max_bytes),
            sstables: Vec::new(),
            block_bytes,
            next_table_id: 1,
        };
        r
    }

    /// Hands out the next table number; numbers are never reused, even when
    /// the flush that consumed one fails.
    pub fn alloc_table_id(&mut self) -> (id: TableId)
        requires
            old(self).spec_next_id() < TableId::MAX,
        ensures
            id == old(self).spec_next_id(),
            final(self).spec_next_id() == old(self).spec_next_id() + 1,
            final(self).spec_tables() == old(self).spec_tables(),
            final(self).spec_mems() == old(self).spec_mems(),
            final(self).spec_dir() == old(self).spec_dir(),
            final(self).spec_block_bytes() == old(self).spec_block_bytes(),
    {
        let id = self.next_table_id;
        self.next_table_id = self.next_table_id + 1;
        id
    }

    /// The path a table is built under before it is published.
    pub fn sst_tmp_path(&self, id: TableId) -> (r: Vec<u8>)
        ensures
            r@ == sst_tmp_name(self.spec_dir(), id),
    {
        let mut out = self.sst_final_path(id);
        out.push(46);
        out.push(116);
        out.push(109);
        out.push(112);
        proof {
            assert(out@ =~= sst_tmp_name(self.spec_dir(), id));
        }
        out
    }

    /// The published path of a table: `<dir>/sst/<six-digit id>.sst`.
    pub fn sst_final_path(&self, id: TableId) -> (r: Vec<u8>)
        ensures
            r@ == sst_final_name(self.spec_dir(), id),
    {
        let mut out = vstd::slice::slice_to_vec(self.data_dir.as_slice());
        out.push(47);
        out.push(115);
        out.push(115);
        out.push(116);
        out.push(47);
        proof {
            assert(out@ =~= sst_dir_of(self.spec_dir()));
        }
        let mut name = decimal_name(id);
        out.append(&mut name);
        out.push(46);
        out.push(115);
        out.push(115);
        out.push(116);
        proof {
            assert(out@ =~= sst_final_name(self.spec_dir(), id));
        }
        out
    }

    /// Builds the frozen memtable into a new table, publishes it at the end
    /// of the table list under the next number, and opens it for reads. The
    /// newly published table answers exactly as the frozen memtable did.
    pub fn flush_immutable(&mut self, frozen: MemTable) -> (r: Result<(), StoreError>)
        requires
            old(self).wf(),
            frozen.wf(),
            old(self).spec_next_id() < TableId::MAX,
        ensures
            final(self).wf(),
            final(self).spec_mems() == old(self).spec_mems(),
            final(self).spec_dir() == old(self).spec_dir(),
            final(self).spec_block_bytes() == old(self).spec_block_bytes(),
            final(self).spec_next_id() == old(self).spec_next_id() + 1,
            match r {
                Ok(_) => {
                    &&& final(self).spec_tables().len() == old(self).spec_tables().len() + 1
                    &&& final(self).spec_tables().drop_last() == old(self).spec_tables()
                    &&& final(self).spec_tables().last().0 == old(self).spec_next_id()
                    &&& final(self).spec_tables().last().1@ == sst_final_name(
                        old(self).spec_dir(),
                        old(self).spec_next_id(),
                    )
                    &&& table_entries(final(self).spec_tables().last().2.spec_file())
                        == frozen.spec_entries()
                    &&& forall|k: Seq<u8>| table_lookup(
                        final(self).spec_tables().last().2.spec_file(),
                        k,
                    ) == frozen.spec_lookup(k)
                }
                Err(e) => e == StoreError::TooLarge && final(self).spec_tables() == old(self).spec_tables(),
            },
            crate::builder::table_fits(frozen.spec_entries()) ==> r is Ok,
    {
        let id = self.alloc_table_id();
        let path = self.sst_final_path(id);
        let bytes = match flush_memtable_to_sstable(&frozen, self.block_bytes) {
            Ok(b) => b,
            Err(e) => {
                return Err(e);
            }
        };
        let ghost fileg = bytes@;
        let reader = match SsTableReader::open(bytes) {
            Ok(rd) => rd,
            Err(e) => {
                proof {
                    assert(false);
                }
                return Err(e);
            }
        };
        proof {
            frozen.lemma_wf_facts();
            assert forall|k: Seq<u8>| table_lookup(fileg, k) == frozen.spec_lookup(k) by {
                let m = table_index(fileg);
                if m.len() == 0 {
                    assert(table_entries(fileg) =~= Seq::<(Seq<u8>, EntryModel)>::empty());
                    assert(frozen.spec_lookup(k) is None);
                } else {
                    crate::index::lemma_find_ge_char(m, k);
                    let ri = crate::index::route_idx(m, k);
                    assert(0 <= ri < m.len());
                    assert(crate::table::block_wf_at(fileg, m, ri));
                    crate::table::lemma_table_route(fileg, m, k);
                    assert(table_lookup(fileg, k) == crate::model::lookup_entries(
                        crate::table::blocks_entries(fileg, m),
                        k,
                    ));
                }
            }
        }
        let ghost told = self.sstables@;
        self.sstables.push((id, path, reader));
        proof {
            assert(self.sstables@.drop_last() =~= told);
            assert forall|t: int| 0 <= t < self.sstables@.len() implies (
            #[trigger] self.sstables@[t].2).wf() && table_wf(self.sstables@[t].2.spec_file()) by {
                if t < told.len() {
                    assert(self.sstables@[t] == told[t]);
                }
            }
            assert forall|t: int| 0 <= t < self.sstables@.len() implies (
            #[trigger] self.sstables@[t].0) < self.next_table_id by {
                if t < told.len() {
                    assert(self.sstables@[t] == told[t]);
                }
            }
            assert forall|t1: int, t2: int| 0 <= t1 < t2 < self.sstables@.len() implies (
            #[trigger] self.sstables@[t1].0) < (#[trigger] self.sstables@[t2].0) by {
                assert(self.sstables@[t1] == told[t1]);
                if t2 < told.len() {
                    assert(self.sstables@[t2] == told[t2]);
                }
            }
        }
        Ok(())
    }

    /// Records a value for `key`. If the write pushes the memtable to its
    /// threshold, the sealed buffer is synchronously flushed to a new table
    /// before the call returns; either way the write is visible.
    pub fn put(&mut self, key: &[u8], value: &[u8]) -> (r: Result<(), StoreError>)
        requires
            old(self).wf(),
            key@.len() <= u32::MAX,
            value@.len() <= u32::MAX,
            old(self).spec_next_id() < TableId::MAX,
        ensures
            final(self).wf(),
            final(self).spec_dir() == old(self).spec_dir(),
            final(self).spec_block_bytes() == old(self).spec_block_bytes(),
            final(self).spec_mems().spec_max() == old(self).spec_mems().spec_max(),
            ({
                let written = spec_write(
                    old(self).spec_mems().spec_active().spec_entries(),
                    key@,
                    EntryModel::Put(value@),
                );
                let rotated = old(self).spec_mems().spec_active().spec_bytes().saturating_add(
                    9usize.saturating_add(key@.len() as usize).saturating_add(
                        value@.len() as usize,
                    ),
                ) >= old(self).spec_mems().spec_max();
                match r {
                    Ok(_) => {
                        &&& forall|k: Seq<u8>| final(self).spec_entry(k) == (if k == key@ {
                            Some(EntryModel::Put(value@))
                        } else {
                            old(self).spec_entry(k)
                        })
                        &&& (!rotated ==> final(self).spec_tables() == old(self).spec_tables()
                            && final(self).spec_next_id() == old(self).spec_next_id() && final(self).spec_mems().spec_active().spec_entries() == written)
                        &&& (rotated ==> published_one(*old(self), *final(self), written)
                            && final(self).spec_mems().spec_active().spec_entries() == Seq::<(
                            Seq<u8>,
                            EntryModel,
                        )>::empty())
                    }
                    Err(e) => {
                        &&& e == StoreError::TooLarge
                        &&& rotated
                        &&& final(self).spec_tables() == old(self).spec_tables()
                        &&& final(self).spec_next_id() == old(self).spec_next_id() + 1
                        &&& forall|k: Seq<u8>| final(self).spec_entry(k) == tables_lookup(
                            old(self).spec_tables(),
                            k,
                        )
                    }
                }
            }),
            crate::builder::table_fits(
                spec_write(
                    old(self).spec_mems().spec_active().spec_entries(),
                    key@,
                    EntryModel::Put(value@),
                ),
            ) ==> r is Ok,
    {
        match self.memtables.put(key, value) {
            None => Ok(()),
            Some(frozen) => {
                let rc = self.flush_immutable(frozen);
                proof {
                    self.lemma_layered_after_flush(*old(self), frozen, rc is Ok);
                    let written = spec_write(
                        old(self).spec_mems().spec_active().spec_entries(),
                        key@,
                        EntryModel::Put(value@),
                    );
                    assert(frozen.spec_entries() == written);
                    if rc is Ok {
                        assert forall|k: Seq<u8>| table_lookup(
                            self.spec_tables().last().2.spec_file(),
                            k,
                        ) == crate::model::lookup_entries(written, k) by {
                            assert(table_lookup(self.spec_tables().last().2.spec_file(), k)
                                == frozen.spec_lookup(k));
                        }
                    }
                }
                match rc {
                    Ok(_) => Ok(()),
                    Err(e) => Err(e),
                }
            }
        }
    }

    /// Records a tombstone for `key`: a later `get` reports absence even if
    /// older tables still hold values. Flushes exactly as `put` does.
    pub fn delete(&mut self, key: &[u8]) -> (r: Result<(), StoreError>)
        requires
            old(self).wf(),
            key@.len() <= u32::MAX,
            old(self).spec_next_id() < TableId::MAX,
        ensures
            final(self).wf(),
            final(self).spec_dir() == old(self).spec_dir(),
            final(self).spec_block_bytes() == old(self).spec_block_bytes(),
            final(self).spec_mems().spec_max() == old(self).spec_mems().spec_max(),
            ({
                let written = spec_write(
                    old(self).spec_mems().spec_active().spec_entries(),
                    key@,
                    EntryModel::Delete,
                );
                let rotated = old(self).spec_mems().spec_active().spec_bytes().saturating_add(
                    9usize.saturating_add(key@.len() as usize),
                ) >= old(self).spec_mems().spec_max();
                match r {
                    Ok(_) => {
                        &&& forall|k: Seq<u8>| final(self).spec_entry(k) == (if k == key@ {
                            Some(EntryModel::Delete)
                        } else {
                            old(self).spec_entry(k)
                        })
                        &&& (!rotated ==> final(self).spec_tables() == old(self).spec_tables()
                            && final(self).spec_next_id() == old(self).spec_next_id() && final(self).spec_mems().spec_active().spec_entries() == written)
                        &&& (rotated ==> published_one(*old(self), *final(self), written)
                            && final(self).spec_mems().spec_active().spec_entries() == Seq::<(
                            Seq<u8>,
                            EntryModel,
                        )>::empty())
                    }
                    Err(e) => {
                        &&& e == StoreError::TooLarge
                        &&& rotated
                        &&& final(self).spec_tables() == old(self).spec_tables()
                        &&& final(self).spec_next_id() == old(self).spec_next_id() + 1
                        &&& forall|k: Seq<u8>| final(self).spec_entry(k) == tables_lookup(
                            old(self).spec_tables(),
                            k,
                        )
                    }
                }
            }),
            crate::builder::table_fits(
                spec_write(
                    old(self).spec_mems().spec_active().spec_entries(),
                    key@,
                    EntryModel::Delete,
                ),
            ) ==> r is Ok,
    {
        match self.memtables.delete(key) {
            None => Ok(()),
            Some(frozen) => {
                let rc = self.flush_immutable(frozen);
                proof {
                    self.lemma_layered_after_flush(*old(self), frozen, rc is Ok);
                    let written = spec_write(
                        old(self).spec_mems().spec_active().spec_entries(),
                        key@,
                        EntryModel::Delete,
                    );
                    assert(frozen.spec_entries() == written);
                    if rc is Ok {
                        assert forall|k: Seq<u8>| table_lookup(
                            self.spec_tables().last().2.spec_file(),
                            k,
                        ) == crate::model::lookup_entries(written, k) by {
                            assert(table_lookup(self.spec_tables().last().2.spec_file(), k)
                                == frozen.spec_lookup(k));
                        }
                    }
                }
                match rc {
                    Ok(_) => Ok(()),
                    Err(e) => Err(e),
                }
            }
        }
    }

    /// After a flush of `frozen` onto `prev`'s table list, the layered
    /// lookup answers as `frozen` did on hits and as the old tables on
    /// misses.
    proof fn lemma_layered_after_flush(
        &self,
        prev: LsmEngine,
        frozen: MemTable,
        flushed: bool,
    )
        requires
            self.spec_mems().spec_active().spec_entries() == Seq::<(Seq<u8>, EntryModel)>::empty(),
            flushed ==> self.spec_tables().len() == prev.spec_tables().len() + 1
                && self.spec_tables().drop_last() == prev.spec_tables() && forall|k: Seq<u8>|
                table_lookup(self.spec_tables().last().2.spec_file(), k) == frozen.spec_lookup(k),
            !flushed ==> self.spec_tables() == prev.spec_tables(),
        ensures
            flushed ==> forall|k: Seq<u8>| self.spec_entry(k) == (match frozen.spec_lookup(k) {
                Some(e) => Some(e),
                None => tables_lookup(prev.spec_tables(), k),
            }),
            !flushed ==> forall|k: Seq<u8>| self.spec_entry(k) == tables_lookup(
                prev.spec_tables(),
                k,
            ),
    {
        assert forall|k: Seq<u8>|
            self.spec_mems().spec_active().spec_lookup(k) is None by {}
        if flushed {
            assert forall|k: Seq<u8>| self.spec_entry(k) == (match frozen.spec_lookup(k) {
                Some(e) => Some(e),
                None => tables_lookup(prev.spec_tables(), k),
            }) by {
                assert(tables_lookup(self.spec_tables(), k) == (match table_lookup(
                    self.spec_tables().last().2.spec_file(),
                    k,
                ) {
                    Some(e) => Some(e),
                    None => tables_lookup(prev.spec_tables(), k),
                }));
            }
        }
    }

    /// The value of the most recent `put` for `key`, or absence when the most
    /// recent operation was a `delete` or the key was never written. Probes
    /// the memtable, then every table newest to oldest, and stops at the
    /// first entry found.
    #[verifier::loop_isolation(false)]
    pub fn get(&self, key: &[u8]) -> (r: Result<Option<Vec<u8>>, StoreError>)
        requires
            self.wf(),
        ensures
            r matches Ok(o) && (match (o, self.spec_get(key@)) {
                (Some(v), Some(sv)) => v@ == sv,
                (None, None) => true,
                _ => false,
            }),
    {
        let ghost ts = self.sstables@;
        match self.memtables.get(key) {
            Some(e) => {
                match e {
                    Entry::Put(v) => {
                        let c = v.clone();
                        proof {
                            assert(c@ =~= v@);
                        }
                        Ok(Some(c))
                    }
                    Entry::Delete => Ok(None),
                }
            }
            None => {
                let n = self.sstables.len();
                let mut t = n;
                proof {
                    assert(ts.take(n as int) =~= ts);
                }
                while t > 0
                    invariant
                        0 <= t <= n,
                        tables_lookup(ts, key@) == tables_lookup(ts.take(t as int), key@),
                    decreases t,
                {
                    t = t - 1;
                    let rd = &self.sstables[t].2;
                    let res = rd.get(key);
                    proof {
                        assert(ts.take(t + 1).last() == ts[t as int]);
                        assert(ts.take(t + 1).drop_last() =~= ts.take(t as int));
                    }
                    match res {
                        Err(e) => {
                            proof {
                                assert(table_wf(ts[t as int].2.spec_file()));
                                assert(false);
                            }
                            return Err(e);
                        }
                        Ok(Some(entry)) => {
                            match entry {
                                Entry::Put(v) => {
                                    return Ok(Some(v));
                                }
                                Entry::Delete => {
                                    return Ok(None);
                                }
                            }
                        }
                        Ok(None) => {}
                    }
                }
                proof {
                    assert(ts.take(0) =~= Seq::<(TableId, Vec<u8>, SsTableReader)>::empty());
                }
                Ok(None)
            }
        }
    }

    /// Seals the active memtable, if it holds anything, and runs the same
    /// flush pipeline as a rotation: the published view is unchanged, and
    /// all recent writes are now in tables.
    pub fn flush(&mut self) -> (r: Result<(), StoreError>)
        requires
            old(self).wf(),
            old(self).spec_next_id() < TableId::MAX,
        ensures
            final(self).wf(),
            final(self).spec_dir() == old(self).spec_dir(),
            final(self).spec_block_bytes() == old(self).spec_block_bytes(),
            final(self).spec_mems().spec_max() == old(self).spec_mems().spec_max(),
            ({
                let buffered = old(self).spec_mems().spec_active().spec_entries();
                match r {
                    Ok(_) => {
                        &&& final(self).spec_mems().spec_active().spec_entries().len() == 0
                        &&& forall|k: Seq<u8>| final(self).spec_entry(k) == old(self).spec_entry(k)
                        &&& (buffered.len() == 0 ==> *final(self) == *old(self))
                        &&& (buffered.len() > 0 ==> published_one(
                            *old(self),
                            *final(self),
                            buffered,
                        ))
                    }
                    Err(e) => {
                        &&& e == StoreError::TooLarge
                        &&& buffered.len() > 0
                        &&& final(self).spec_tables() == old(self).spec_tables()
                        &&& final(self).spec_next_id() == old(self).spec_next_id() + 1
                        &&& forall|k: Seq<u8>| final(self).spec_entry(k) == tables_lookup(
                            old(self).spec_tables(),
                            k,
                        )
                    }
                }
            }),
            crate::builder::table_fits(old(self).spec_mems().spec_active().spec_entries())
                ==> r is Ok,
    {
        match self.memtables.rotate() {
            None => {
                proof {
                    assert(*self == *old(self));
                }
                Ok(())
            }
            Some(frozen) => {
                let rc = self.flush_immutable(frozen);
                proof {
                    self.lemma_layered_after_flush(*old(self), frozen, rc is Ok);
                    let buffered = old(self).spec_mems().spec_active().spec_entries();
                    assert(frozen.spec_entries() == buffered);
                    if rc is Ok {
                        assert forall|k: Seq<u8>| table_lookup(
                            self.spec_tables().last().2.spec_file(),
                            k,
                        ) == crate::model::lookup_entries(buffered, k) by {
                            assert(table_lookup(self.spec_tables().last().2.spec_file(), k)
                                == frozen.spec_lookup(k));
                        }
                    }
                }
                match rc {
                    Ok(_) => Ok(()),
                    Err(e) => Err(e),
                }
            }
        }
    }

    /// Number of published tables.
    pub fn tables_len(&self) -> (r: usize)
        ensures
            r == self.spec_tables().len(),
    {
        self.sstables.len()
    }

    /// The number of the `i`-th published table, oldest first.
    pub fn table_id(&self, i: usize) -> (r: TableId)
        requires
            i < self.spec_tables().len(),
        ensures
            r == self.spec_tables()[i as int].0,
    {
        self.sstables[i].0
    }

    /// The published path of the `i`-th table, oldest first.
    pub fn table_path(&self, i: usize) -> (r: &Vec<u8>)
        requires
            i < self.spec_tables().len(),
        ensures
            r@ == self.spec_tables()[i as int].1@,
    {
        &self.sstables[i].1
    }

    /// The file image of the `i`-th table, for persistence and inspection.
    pub fn table_file(&self, i: usize) -> (r: &Vec<u8>)
        requires
            i < self.spec_tables().len(),
        ensures
            r@ == self.spec_tables()[i as int].2.spec_file(),
    {
        self.sstables[i].2.file_bytes()
    }

    /// The next number a flush will take.
    pub fn next_table_id(&self) -> (r: TableId)
        ensures
            r == self.spec_next_id(),
    {
        self.next_table_id
    }
}

} // verus!
