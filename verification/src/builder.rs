//! Builds one sorted-table file from a frozen memtable: blocks in key order,
//! then the separator index, then the footer.
use vstd::prelude::*;
use vstd::bytes::{u32_to_le_bytes, u64_to_le_bytes};
use crate::block::DataBlock;
use crate::errors::StoreError;
use crate::format::{
    enc_block, enc_entries, enc_entry, enc_footer, enc_index, enc_index_entries, enc_index_entry,
    index_lens_ok, lemma_enc_entries_concat, lemma_enc_index_entries_push, lemma_parse_enc_block,
    lemma_parse_enc_footer, lemma_parse_enc_index, BlockHandle, SSTABLE_MAGIC, SSTABLE_VERSION,
};
use crate::index::{seps_sorted, Index};
use crate::keys::{lemma_lex_le_lt_trans, lemma_lex_lt_le_trans, lemma_lex_lt_trans, lex_lt};
use crate::memtable::MemTable;
use crate::model::{entries_sorted, EntryModel};
use crate::table::{
    block_at, block_wf_at, blocks_entries, blocks_wf, handles_within, lemma_blocks_entries_push,
    lemma_blocks_extend, lemma_first_le_last, table_entries, table_index, table_wf,
};

verus! {

/// Seals `block`, records its separator and byte range in the index, and
/// appends its encoding to the file. Fails only when the encoded block
/// outgrows the handle's 32-bit length word.
fn close_block(file: &mut Vec<u8>, index: &mut Index, block: DataBlock, sep_key: &[u8]) -> (r:
    Result<(), StoreError>)
    requires
        block.wf(),
        block.spec_entries().len() > 0,
        entries_sorted(block.spec_entries()),
        block.spec_entries().last().0 == sep_key@,
        blocks_wf(old(file)@, old(index).spec_entries()),
        seps_sorted(old(index).spec_entries()),
        handles_within(old(index).spec_entries(), old(file)@.len() as int),
        old(index).spec_entries().len() > 0 ==> lex_lt(
            old(index).spec_entries().last().0,
            block.spec_entries().first().0,
        ),
    ensures
        match r {
            Ok(_) => {
                &&& final(file)@ == old(file)@ + enc_block(block.spec_entries())
                &&& final(index).spec_entries() == old(index).spec_entries().push(
                    (
                        sep_key@,
                        BlockHandle {
                            offset: old(file)@.len() as u64,
                            length: enc_block(block.spec_entries()).len() as u32,
                        },
                    ),
                )
                &&& blocks_wf(final(file)@, final(index).spec_entries())
                &&& seps_sorted(final(index).spec_entries())
                &&& handles_within(final(index).spec_entries(), final(file)@.len() as int)
                &&& blocks_entries(final(file)@, final(index).spec_entries()) == blocks_entries(
                    old(file)@,
                    old(index).spec_entries(),
                ) + block.spec_entries()
            }
            Err(e) => e == StoreError::TooLarge && *final(file) == *old(file) && *final(index)
                == *old(index) && enc_block(block.spec_entries()).len() > u32::MAX,
        },
{
    let ghost bes = block.spec_entries();
    let ghost m0 = index.spec_entries();
    let ghost f0 = file@;
    proof {
        block.lemma_wf_facts();
    }
    let bytes = block.encode();
    if bytes.len() > u32::MAX as usize {
        return Err(StoreError::TooLarge);
    }
    let offset_u = file.len();
    let h = BlockHandle { offset: offset_u as u64, length: bytes.len() as u32 };
    index.add(sep_key, h);
    let mut b = bytes;
    file.append(&mut b);
    proof {
        let m1 = index.spec_entries();
        let f1 = file@;
        assert(f1 == f0 + enc_block(bes));
        assert(f1.subrange(0, f0.len() as int) =~= f0);
        lemma_blocks_extend(f0, f1, m0);
        // The new block's bytes read back as exactly its entries.
        assert(f1.subrange(h.offset as int, h.offset as int + h.length as int) =~= enc_block(bes));
        lemma_parse_enc_block(bes);
        assert(block_at(f1, h) == Some(bes));
        // Every block, old and new, is well formed in the extended file.
        assert forall|j: int| 0 <= j < m1.len() implies #[trigger] block_wf_at(f1, m1, j) by {
            if j < m0.len() {
                assert(m1[j] == m0[j]);
                assert(block_wf_at(f0, m0, j));
                assert(block_wf_at(f1, m0, j));
                if j > 0 {
                    assert(m1[j - 1] == m0[j - 1]);
                }
            } else {
                assert(m1[j] == (sep_key@, h));
                if j > 0 {
                    assert(m1[j - 1] == m0[j - 1]);
                    assert(m0.last() == m0[j - 1]);
                }
            }
        }
        // Separators stay strictly increasing.
        assert forall|p: int, q: int| 0 <= p < q < m1.len() implies lex_lt(m1[p].0, m1[q].0) by {
            if q < m0.len() {
                assert(m1[p] == m0[p] && m1[q] == m0[q]);
            } else {
                assert(m1[p] == m0[p]);
                assert(m1[q] == (sep_key@, h));
                lemma_first_le_last(bes);
                if p < m0.len() - 1 {
                    assert(lex_lt(m0[p].0, m0.last().0));
                    lemma_lex_lt_trans(m0[p].0, m0.last().0, bes.first().0);
                } else {
                    assert(m0[p] == m0.last());
                }
                lemma_lex_lt_le_trans(m0[p].0, bes.first().0, bes.last().0);
            }
        }
        assert(handles_within(m1, f1.len() as int)) by {
            assert forall|j: int| 0 <= j < m1.len() implies #[trigger] m1[j].1.offset
                + m1[j].1.length <= f1.len() by {
                if j < m0.len() {
                    assert(m1[j] == m0[j]);
                }
            }
        }
        lemma_blocks_entries_push(f1, m0, (sep_key@, h));
        assert(blocks_entries(f1, m1) == blocks_entries(f0, m0) + bes);
    }
    Ok(())
}

/// A contiguous chunk never encodes longer than the whole run.
proof fn lemma_chunk_within(input: Seq<(Seq<u8>, EntryModel)>, a: int, b: int)
    requires
        0 <= a <= b <= input.len(),
    ensures
        enc_entries(input.subrange(a, b)).len() <= enc_entries(input).len(),
{
    lemma_enc_entries_concat(input.take(a), input.subrange(a, b));
    assert(input.take(a) + input.subrange(a, b) =~= input.take(b));
    lemma_enc_entries_concat(input.take(b), input.skip(b));
    assert(input.take(b) + input.skip(b) =~= input);
}

/// Closing a block keeps the index section within its byte budget: sixteen
/// fixed bytes plus the separator per block, all bounded by the entries the
/// file already carries.
proof fn lemma_index_budget(
    input: Seq<(Seq<u8>, EntryModel)>,
    gdone_old: int,
    iend: int,
    mprev: Seq<(Seq<u8>, BlockHandle)>,
    mnew: Seq<(Seq<u8>, BlockHandle)>,
    x: (Seq<u8>, BlockHandle),
)
    requires
        0 <= gdone_old < iend <= input.len(),
        mnew == mprev.push(x),
        x.0 == input[iend - 1].0,
        enc_index_entries(mprev).len() <= 16 * mprev.len() + enc_entries(
            input.take(gdone_old),
        ).len(),
    ensures
        enc_index_entries(mnew).len() <= 16 * mnew.len() + enc_entries(input.take(iend)).len(),
{
    vstd::bytes::lemma_auto_spec_u32_to_from_le_bytes();
    vstd::bytes::lemma_auto_spec_u64_to_from_le_bytes();
    lemma_enc_index_entries_push(mprev, x.0, x.1);
    assert(enc_index_entry(x.0, x.1).len() == 16 + x.0.len());
    let chunk = input.subrange(gdone_old, iend);
    lemma_enc_entries_concat(input.take(gdone_old), chunk);
    assert(input.take(gdone_old) + chunk =~= input.take(iend));
    assert(chunk.last() == input[iend - 1]);
    assert(chunk =~= chunk.drop_last() + seq![chunk.last()]);
    lemma_enc_entries_concat(chunk.drop_last(), seq![chunk.last()]);
    assert(seq![chunk.last()].skip(1) =~= Seq::<(Seq<u8>, EntryModel)>::empty());
    assert(enc_entries(seq![chunk.last()]) == enc_entry(chunk.last().0, chunk.last().1)
        + enc_entries(Seq::<(Seq<u8>, EntryModel)>::empty()));
    match input[iend - 1].1 {
        EntryModel::Put(v) => {
            assert(enc_entry(input[iend - 1].0, input[iend - 1].1).len() == 9 + x.0.len()
                + v.len());
        }
        EntryModel::Delete => {
            assert(enc_entry(input[iend - 1].0, input[iend - 1].1).len() == 9 + x.0.len());
        }
    }
}

/// The format can carry `es` whole: even a single block of everything stays
/// within a handle's 32-bit length word, and so does the index section.
pub open spec fn table_fits(es: Seq<(Seq<u8>, EntryModel)>) -> bool {
    &&& enc_entries(es).len() + 4 <= u32::MAX
    &&& 8 + 16 * es.len() + enc_entries(es).len() <= u32::MAX
}

/// Turns a frozen memtable into one complete sorted-table file image:
/// blocks of entries in ascending key order, the separator index, and the
/// footer. The caller publishes the bytes; nothing is written here.
#[verifier::loop_isolation(false)]
#[verifier::rlimit(60)]
pub fn flush_memtable_to_sstable(frozen: &MemTable, block_bytes: usize) -> (r: Result<
    Vec<u8>,
    StoreError,
>)
    requires
        frozen.wf(),
    ensures
        match r {
            Ok(file) => table_wf(file@) && table_entries(file@) == frozen.spec_entries(),
            Err(e) => e == StoreError::TooLarge,
        },
        table_fits(frozen.spec_entries()) ==> r is Ok,
{
    let ghost input = frozen.spec_entries();
    proof {
        frozen.lemma_wf_facts();
    }
    let n = frozen.len();
    let mut file: Vec<u8> = Vec::new();
    let mut index = Index::new();
    let mut block = DataBlock::new(block_bytes);
    let ghost mut gdone: int = 0;
    let mut i: usize = 0;
    proof {
        assert(input.subrange(0, 0) =~= Seq::<(Seq<u8>, EntryModel)>::empty());
        assert(input.take(0) =~= Seq::<(Seq<u8>, EntryModel)>::empty());
    }
    while i < n
        invariant
            0 <= gdone <= i <= n,
            n == input.len(),
            block.wf(),
            block.spec_target() == block_bytes as nat,
            block.spec_entries() == input.subrange(gdone, i as int),
            blocks_wf(file@, index.spec_entries()),
            seps_sorted(index.spec_entries()),
            handles_within(index.spec_entries(), file@.len() as int),
            blocks_entries(file@, index.spec_entries()) == input.take(gdone),
            index.spec_entries().len() > 0 ==> gdone > 0 && index.spec_entries().last().0
                == input[gdone - 1].0,
            index.spec_entries().len() <= gdone,
            forall|j: int| 0 <= j < index.spec_entries().len()
                ==> #[trigger] index.spec_entries()[j].0.len() <= u32::MAX,
            enc_index_entries(index.spec_entries()).len() <= 16 * index.spec_entries().len()
                + enc_entries(input.take(gdone)).len(),
        decreases n - i,
    {
        let pair = frozen.entry_at(i);
        proof {
            assert(input[i as int].0.len() <= u32::MAX);
            assert(input[i as int].1 matches EntryModel::Put(v) ==> v.len() <= u32::MAX);
        }
        match &pair.1 {
            crate::model::Entry::Put(v) => {
                block.add_put(pair.0.as_slice(), v.as_slice());
            }
            crate::model::Entry::Delete => {
                block.add_delete(pair.0.as_slice());
            }
        }
        proof {
            assert(block.spec_entries() =~= input.subrange(gdone, i + 1));
        }
        if block.is_full() {
            let mut fresh = DataBlock::new(block_bytes);
            core::mem::swap(&mut block, &mut fresh);
            proof {
                assert(entries_sorted(fresh.spec_entries())) by {
                    assert forall|p: int, q: int|
                        0 <= p < q < fresh.spec_entries().len() implies lex_lt(
                        fresh.spec_entries()[p].0,
                        fresh.spec_entries()[q].0,
                    ) by {
                        assert(fresh.spec_entries()[p] == input[gdone + p]);
                        assert(fresh.spec_entries()[q] == input[gdone + q]);
                    }
                }
                assert(fresh.spec_entries().last() == input[i as int]);
                if index.spec_entries().len() > 0 {
                    assert(fresh.spec_entries().first() == input[gdone]);
                    assert(lex_lt(input[gdone - 1].0, input[gdone].0));
                }
            }
            let ghost mprev = index.spec_entries();
            let ghost chunk = fresh.spec_entries();
            let rc = close_block(&mut file, &mut index, fresh, pair.0.as_slice());
            match rc {
                Ok(_) => {}
                Err(e) => {
                    proof {
                        if table_fits(input) {
                            lemma_chunk_within(input, gdone, i + 1);
                            vstd::bytes::lemma_auto_spec_u32_to_from_le_bytes();
                            assert(enc_block(chunk).len() == enc_entries(chunk).len() + 4);
                            assert(false);
                        }
                    }
                    return Err(e);
                }
            }
            proof {
                assert forall|j: int| 0 <= j < index.spec_entries().len() implies
                    #[trigger] index.spec_entries()[j].0.len() <= u32::MAX by {
                    if j < mprev.len() {
                        assert(index.spec_entries()[j] == mprev[j]);
                    } else {
                        assert(index.spec_entries()[j].0 == input[i as int].0);
                    }
                }
                let x = index.spec_entries().last();
                assert(index.spec_entries() == mprev.push(x));
                assert(x.0 == input[i as int].0);
                lemma_index_budget(input, gdone, i + 1, mprev, index.spec_entries(), x);
                gdone = i + 1;
                assert(input.take(i + 1) =~= input.take(gdone - (i + 1 - gdone)) + input.subrange(
                    gdone - (i + 1 - gdone),
                    i + 1,
                )) by {
                    assert(input.take(i + 1) =~= input.take(i + 1));
                }
                assert(blocks_entries(file@, index.spec_entries()) =~= input.take(i + 1));
                assert(block.spec_entries() =~= input.subrange(gdone, i + 1));
            }
        }
        i = i + 1;
    }
    if !block.is_empty() {
        let pair = frozen.entry_at(n - 1);
        proof {
            assert(gdone < n);
            assert(entries_sorted(block.spec_entries())) by {
                assert forall|p: int, q: int|
                    0 <= p < q < block.spec_entries().len() implies lex_lt(
                    block.spec_entries()[p].0,
                    block.spec_entries()[q].0,
                ) by {
                    assert(block.spec_entries()[p] == input[gdone + p]);
                    assert(block.spec_entries()[q] == input[gdone + q]);
                }
            }
            assert(block.spec_entries().last() == input[n - 1]);
            if index.spec_entries().len() > 0 {
                assert(block.spec_entries().first() == input[gdone]);
                assert(lex_lt(input[gdone - 1].0, input[gdone].0));
            }
        }
        let ghost closing = block.spec_entries();
        let ghost mprev = index.spec_entries();
        let rc = close_block(&mut file, &mut index, block, pair.0.as_slice());
        match rc {
            Ok(_) => {}
            Err(e) => {
                proof {
                    if table_fits(input) {
                        lemma_chunk_within(input, gdone, n as int);
                        vstd::bytes::lemma_auto_spec_u32_to_from_le_bytes();
                        assert(enc_block(closing).len() == enc_entries(closing).len() + 4);
                        assert(false);
                    }
                }
                return Err(e);
            }
        }
        proof {
            assert forall|j: int| 0 <= j < index.spec_entries().len() implies
                #[trigger] index.spec_entries()[j].0.len() <= u32::MAX by {
                if j < mprev.len() {
                    assert(index.spec_entries()[j] == mprev[j]);
                } else {
                    assert(index.spec_entries()[j].0 == input[n - 1].0);
                }
            }
            let x = index.spec_entries().last();
            assert(index.spec_entries() == mprev.push(x));
            assert(x.0 == input[n - 1].0);
            lemma_index_budget(input, gdone, n as int, mprev, index.spec_entries(), x);
            assert(blocks_entries(file@, index.spec_entries()) == input.take(gdone) + closing);
            gdone = n as int;
            assert(input.take((n - (n - gdone)) as int) + input.subrange(
                (n - (n - gdone)) as int,
                n as int,
            ) =~= input.take(n as int));
            assert(blocks_entries(file@, index.spec_entries()) =~= input.take(n as int));
        }
    } else {
        proof {
            assert(input.subrange(gdone, n as int).len() == 0);
            assert(gdone == n);
        }
    }
    proof {
        assert(input.take(n as int) =~= input);
        assert(blocks_entries(file@, index.spec_entries()) == input);
    }
    if index.len() > u32::MAX as usize {
        proof {
            if table_fits(input) {
                assert(false);
            }
        }
        return Err(StoreError::TooLarge);
    }
    let ghost gm = index.spec_entries();
    let ghost blocks_part = file@;
    let ioff_usize = file.len();
    let ibytes = index.encode();
    if ibytes.len() > u32::MAX as usize {
        proof {
            if table_fits(input) {
                vstd::bytes::lemma_auto_spec_u32_to_from_le_bytes();
                assert(input.take(n as int) =~= input);
                assert(enc_index(gm).len() == 8 + enc_index_entries(gm).len());
                assert(false);
            }
        }
        return Err(StoreError::TooLarge);
    }
    let ilen = ibytes.len() as u32;
    let ioff = ioff_usize as u64;
    let mut ib = ibytes;
    file.append(&mut ib);
    let mut f1 = u64_to_le_bytes(SSTABLE_MAGIC);
    file.append(&mut f1);
    let mut f2 = u32_to_le_bytes(SSTABLE_VERSION);
    file.append(&mut f2);
    let mut f3 = u32_to_le_bytes(ilen);
    file.append(&mut f3);
    let mut f4 = u64_to_le_bytes(ioff);
    file.append(&mut f4);
    proof {
        let whole = file@;
        assert(whole =~= (blocks_part + enc_index(gm)) + enc_footer(ilen, ioff));
        assert(whole.subrange(0, blocks_part.len() as int) =~= blocks_part);
        lemma_parse_enc_footer(blocks_part + enc_index(gm), ilen, ioff);
        assert(crate::format::parse_footer(whole) == Some((ioff, ilen)));
        assert(whole.subrange(ioff as int, ioff + ilen) =~= enc_index(gm));
        lemma_parse_enc_index(gm);
        assert(table_index(whole) == gm);
        lemma_blocks_extend(blocks_part, whole, gm);
        assert(blocks_entries(whole, gm) == input);
        assert(table_wf(whole));
    }
    Ok(file)
}

} // verus!
