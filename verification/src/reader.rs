//! Opens a published table and answers point lookups: footer and index are
//! validated up front, each block's CRC on the read that touches it.
use vstd::prelude::*;
use vstd::bytes::{u32_from_le_bytes, u64_from_le_bytes};
use vstd::slice::slice_subrange;
use crate::block::decode_block;
use crate::errors::StoreError;
use crate::format::{SSTABLE_MAGIC, SSTABLE_VERSION};
use crate::index::{lemma_find_ge_char, route_idx, Index};
use crate::model::{kv_view, lemma_lookup_absent, lookup_entries, Entry};
use crate::table::{
    block_at, block_wf_at, table_index, table_index_section, table_lookup, table_shell_wf,
    table_wf,
};

verus! {

/// A published table: its bytes and its decoded separator index. Immutable
/// once opened; the engine layers lookups across many of these.
pub struct SsTableReader {
    file: Vec<u8>,
    index: Index,
}

impl SsTableReader {
    /// The raw bytes of the table file.
    pub closed spec fn spec_file(self) -> Seq<u8> {
        self.file@
    }

    /// Footer and index have been validated and decoded.
    pub closed spec fn wf(self) -> bool {
        &&& table_shell_wf(self.file@)
        &&& self.index.spec_entries() == table_index(self.file@)
    }

    /// Validates the footer (magic, version, section bounds) and the index
    /// (CRC, layout, separator order); succeeds exactly on sound shells.
    pub fn open(file: Vec<u8>) -> (r: Result<SsTableReader, StoreError>)
        ensures
            match r {
                Ok(rd) => table_shell_wf(file@) && rd.wf() && rd.spec_file() == file@,
                Err(_) => !table_shell_wf(file@),
            },
    {
        let n = file.len();
        if n < 24 {
            return Err(StoreError::Truncated);
        }
        let tail = slice_subrange(file.as_slice(), n - 24, n);
        let ghost f = file@.subrange(n - 24, n as int);
        let magic = u64_from_le_bytes(slice_subrange(tail, 0, 8));
        let version = u32_from_le_bytes(slice_subrange(tail, 8, 12));
        proof {
            assert(tail@.subrange(0, 8) =~= f.subrange(0, 8));
            assert(tail@.subrange(8, 12) =~= f.subrange(8, 12));
        }
        if magic != SSTABLE_MAGIC || version != SSTABLE_VERSION {
            return Err(StoreError::Malformed);
        }
        let ilen32 = u32_from_le_bytes(slice_subrange(tail, 12, 16));
        let ioff64 = u64_from_le_bytes(slice_subrange(tail, 16, 24));
        proof {
            assert(tail@.subrange(12, 16) =~= f.subrange(12, 16));
            assert(tail@.subrange(16, 24) =~= f.subrange(16, 24));
        }
        let n64 = n as u64;
        if ioff64 > n64 - 24 || (ilen32 as u64) != n64 - 24 - ioff64 {
            return Err(StoreError::Malformed);
        }
        let ioff = ioff64 as usize;
        let iend = ioff + (ilen32 as usize);
        let section = slice_subrange(file.as_slice(), ioff, iend);
        proof {
            assert(section@ =~= table_index_section(file@));
        }
        match Index::decode(section) {
            Err(e) => {
                assert(crate::format::parse_index(table_index_section(file@)) is None);
                Err(e)
            }
            Ok(ix) => {
                assert(crate::format::parse_index(table_index_section(file@)) == Some(
                    ix.spec_entries(),
                ));
                if !ix.check_sorted() {
                    return Err(StoreError::Malformed);
                }
                Ok(SsTableReader { file, index: ix })
            }
        }
    }

    /// Routes `key` to its one candidate block, checks that block's CRC, and
    /// scans it: the entry for `key` in this table, value or tombstone, or
    /// absence. On a fully well-formed table this cannot fail.
    #[verifier::loop_isolation(false)]
    pub fn get(&self, key: &[u8]) -> (r: Result<Option<Entry>, StoreError>)
        requires
            self.wf(),
        ensures
            table_wf(self.spec_file()) ==> (r matches Ok(o) && (match (o, table_lookup(
                self.spec_file(),
                key@,
            )) {
                (Some(e), Some(em)) => e@ == em,
                (None, None) => true,
                _ => false,
            })),
            r matches Ok(o) ==> (match crate::index::spec_find_block(
                table_index(self.spec_file()),
                key@,
            ) {
                None => o is None,
                Some(h) => block_at(self.spec_file(), h) matches Some(bes) && (match o {
                    Some(en) => lookup_entries(bes, key@) == Some(en@),
                    None => lookup_entries(bes, key@) is None,
                }),
            }),
            r is Err ==> !table_wf(self.spec_file()),
    {
        let ghost m = table_index(self.file@);
        let ghost fileg = self.file@;
        match self.index.find_block(key) {
            None => Ok(None),
            Some(h) => {
                proof {
                    lemma_find_ge_char(m, key@);
                    assert(0 <= route_idx(m, key@) < m.len());
                    assert(h == m[route_idx(m, key@)].1);
                }
                let flen = self.file.len();
                if h.offset > flen as u64 || (h.length as u64) > flen as u64 - h.offset {
                    proof {
                        assert(block_at(fileg, h) is None);
                        assert(!block_wf_at(fileg, m, route_idx(m, key@)));
                    }
                    return Err(StoreError::Malformed);
                }
                let off = h.offset as usize;
                let end = off + (h.length as usize);
                let bs = slice_subrange(self.file.as_slice(), off, end);
                proof {
                    assert(bs@ =~= fileg.subrange(
                        h.offset as int,
                        h.offset as int + h.length as int,
                    ));
                }
                match decode_block(bs) {
                    Err(e) => {
                        proof {
                            assert(crate::format::parse_block(bs@) is None);
                            assert(!block_wf_at(fileg, m, route_idx(m, key@)));
                        }
                        Err(e)
                    }
                    Ok(es) => {
                        let ghost bes = kv_view(es@);
                        proof {
                            assert(block_at(fileg, h) == Some(bes));
                        }
                        let cnt = es.len();
                        let mut j: usize = 0;
                        while j < cnt
                            invariant
                                0 <= j <= cnt == bes.len(),
                                forall|t: int| 0 <= t < j ==> #[trigger] bes[t].0 != key@,
                            decreases cnt - j,
                        {
                            if crate::keys::key_eq(es[j].0.as_slice(), key) {
                                proof {
                                    assert(bes[j as int] == (es@[j as int].0@, es@[j as int].1@));
                                    crate::model::lemma_lookup_first(bes, key@, j as int);
                                }
                                let e = es[j].1.clone();
                                return Ok(Some(e));
                            }
                            proof {
                                assert(bes[j as int] == (es@[j as int].0@, es@[j as int].1@));
                            }
                            j = j + 1;
                        }
                        proof {
                            lemma_lookup_absent(bes, key@);
                        }
                        Ok(None)
                    }
                }
            }
        }
    }

    /// Number of blocks the index records.
    pub fn block_count(&self) -> (r: usize)
        requires
            self.wf(),
        ensures
            r == table_index(self.spec_file()).len(),
    {
        self.index.len()
    }

    /// Reads, CRC-checks and decodes the `j`-th block. On a fully
    /// well-formed table this cannot fail.
    pub fn read_block(&self, j: usize) -> (r: Result<Vec<(Vec<u8>, Entry)>, StoreError>)
        requires
            self.wf(),
            j < table_index(self.spec_file()).len(),
        ensures
            table_wf(self.spec_file()) ==> r is Ok,
            r matches Ok(es) ==> Some(kv_view(es@)) == block_at(
                self.spec_file(),
                table_index(self.spec_file())[j as int].1,
            ),
            r is Err ==> !table_wf(self.spec_file()),
    {
        let ghost fileg = self.file@;
        let ghost m = table_index(fileg);
        let h = self.index.handle_at(j);
        let flen = self.file.len();
        if h.offset > flen as u64 || (h.length as u64) > flen as u64 - h.offset {
            proof {
                assert(block_at(fileg, h) is None);
                assert(!block_wf_at(fileg, m, j as int));
            }
            return Err(StoreError::Malformed);
        }
        let off = h.offset as usize;
        let end = off + (h.length as usize);
        let bs = slice_subrange(self.file.as_slice(), off, end);
        proof {
            assert(bs@ =~= fileg.subrange(h.offset as int, h.offset as int + h.length as int));
        }
        match decode_block(bs) {
            Err(e) => {
                proof {
                    assert(crate::format::parse_block(bs@) is None);
                    assert(!block_wf_at(fileg, m, j as int));
                }
                Err(e)
            }
            Ok(es) => {
                proof {
                    assert(block_at(fileg, h) == Some(kv_view(es@)));
                }
                Ok(es)
            }
        }
    }

    /// The file image this reader serves, for persistence and inspection.
    pub fn file_bytes(&self) -> (r: &Vec<u8>)
        ensures
            r@ == self.spec_file(),
    {
        &self.file
    }
}

} // verus!
