//! A whole sorted-table file as a mathematical object: which files are well
//! formed, which entries they hold, and why routing a key through the
//! separator index finds exactly the entry a flat scan would.
use vstd::prelude::*;
use crate::format::{parse_block, parse_footer, parse_index, BlockHandle, FOOTER_SIZE};
use crate::index::{find_ge, route_idx, seps_sorted};
use crate::keys::{lemma_lex_le_lt_trans, lemma_lex_lt_trans, lemma_lex_trichotomy, lex_le, lex_lt};
use crate::model::{
    entries_sorted, lemma_lookup_absent, lemma_lookup_concat, lookup_entries, EntryModel,
};

verus! {

/// The entries of the block a handle points at, if its range and bytes are good.
pub open spec fn block_at(file: Seq<u8>, h: BlockHandle) -> Option<Seq<(Seq<u8>, EntryModel)>> {
    if h.offset + h.length <= file.len() {
        parse_block(file.subrange(h.offset as int, h.offset as int + h.length as int))
    } else {
        None
    }
}

/// Block `j` of the index parses, is nonempty and sorted, ends at its
/// separator, and starts above the previous separator.
pub open spec fn block_wf_at(file: Seq<u8>, m: Seq<(Seq<u8>, BlockHandle)>, j: int) -> bool {
    let ob = block_at(file, m[j].1);
    &&& ob is Some
    &&& ob->Some_0.len() > 0
    &&& entries_sorted(ob->Some_0)
    &&& ob->Some_0.last().0 == m[j].0
    &&& (j > 0 ==> lex_lt(m[j - 1].0, ob->Some_0.first().0))
}

/// Every block of the index is well formed.
pub open spec fn blocks_wf(file: Seq<u8>, m: Seq<(Seq<u8>, BlockHandle)>) -> bool {
    forall|j: int| 0 <= j < m.len() ==> #[trigger] block_wf_at(file, m, j)
}

/// All entries of the table, front block first.
pub open spec fn blocks_entries(file: Seq<u8>, m: Seq<(Seq<u8>, BlockHandle)>) -> Seq<
    (Seq<u8>, EntryModel),
>
    decreases m.len(),
{
    if m.len() == 0 {
        Seq::empty()
    } else {
        (match block_at(file, m[0].1) {
            Some(bes) => bes,
            None => Seq::empty(),
        }) + blocks_entries(file, m.skip(1))
    }
}

/// The index section the footer points at.
pub open spec fn table_index_section(file: Seq<u8>) -> Seq<u8> {
    let (off, ilen) = parse_footer(file)->Some_0;
    file.subrange(off as int, off + ilen)
}

/// The decoded separator index of the file.
pub open spec fn table_index(file: Seq<u8>) -> Seq<(Seq<u8>, BlockHandle)> {
    parse_index(table_index_section(file))->Some_0
}

/// Footer and index are sound: what `open` validates.
pub open spec fn table_shell_wf(file: Seq<u8>) -> bool {
    &&& parse_footer(file) is Some
    &&& parse_footer(file)->Some_0.0 + parse_footer(file)->Some_0.1 + FOOTER_SIZE == file.len()
    &&& parse_index(table_index_section(file)) is Some
    &&& seps_sorted(table_index(file))
}

/// A fully well-formed table: sound footer and index, and every block sound.
pub open spec fn table_wf(file: Seq<u8>) -> bool {
    &&& table_shell_wf(file)
    &&& blocks_wf(file, table_index(file))
}

/// The ordered entries a well-formed table holds.
pub open spec fn table_entries(file: Seq<u8>) -> Seq<(Seq<u8>, EntryModel)> {
    blocks_entries(file, table_index(file))
}

/// The answer a point lookup owes: route to the one candidate block, then
/// scan it.
pub open spec fn table_lookup(file: Seq<u8>, k: Seq<u8>) -> Option<EntryModel> {
    let m = table_index(file);
    if m.len() == 0 {
        None
    } else {
        match block_at(file, m[route_idx(m, k)].1) {
            Some(bes) => lookup_entries(bes, k),
            None => None,
        }
    }
}

/// Every handle ends within the first `len` bytes.
pub open spec fn handles_within(m: Seq<(Seq<u8>, BlockHandle)>, len: int) -> bool {
    forall|j: int| 0 <= j < m.len() ==> #[trigger] m[j].1.offset + m[j].1.length <= len
}

/// Appending one block's index entry appends its entries at the tail.
pub proof fn lemma_blocks_entries_push(
    file: Seq<u8>,
    m: Seq<(Seq<u8>, BlockHandle)>,
    x: (Seq<u8>, BlockHandle),
)
    requires
        block_at(file, x.1) is Some,
    ensures
        blocks_entries(file, m.push(x)) == blocks_entries(file, m) + block_at(file, x.1)->Some_0,
    decreases m.len(),
{
    let w = m.push(x);
    if m.len() == 0 {
        assert(w[0] == x);
        assert(w.skip(1) =~= Seq::<(Seq<u8>, BlockHandle)>::empty());
        assert(blocks_entries(file, w.skip(1)) == Seq::<(Seq<u8>, EntryModel)>::empty());
        assert(blocks_entries(file, w) == block_at(file, x.1)->Some_0 + blocks_entries(
            file,
            w.skip(1),
        ));
        assert(blocks_entries(file, w) =~= blocks_entries(file, m) + block_at(file, x.1)->Some_0);
    } else {
        assert(w[0] == m[0]);
        assert(w.skip(1) =~= m.skip(1).push(x));
        lemma_blocks_entries_push(file, m.skip(1), x);
        let b0 = match block_at(file, m[0].1) {
            Some(bes) => bes,
            None => Seq::empty(),
        };
        assert(b0 + (blocks_entries(file, m.skip(1)) + block_at(file, x.1)->Some_0) =~= (b0
            + blocks_entries(file, m.skip(1))) + block_at(file, x.1)->Some_0);
    }
}

/// Bytes appended past every handle change no block: parsing, well-formedness
/// and the entry run are stable under extension of the file.
pub proof fn lemma_blocks_extend(file: Seq<u8>, file2: Seq<u8>, m: Seq<(Seq<u8>, BlockHandle)>)
    requires
        file.len() <= file2.len(),
        file2.subrange(0, file.len() as int) == file,
        handles_within(m, file.len() as int),
    ensures
        forall|j: int| 0 <= j < m.len() ==> #[trigger] block_at(file2, m[j].1) == block_at(
            file,
            m[j].1,
        ),
        blocks_entries(file2, m) == blocks_entries(file, m),
        blocks_wf(file, m) ==> blocks_wf(file2, m),
    decreases m.len(),
{
    assert forall|j: int| 0 <= j < m.len() implies #[trigger] block_at(file2, m[j].1) == block_at(
        file,
        m[j].1,
    ) by {
        let h = m[j].1;
        assert(h.offset + h.length <= file.len());
        assert(file2.subrange(h.offset as int, h.offset as int + h.length as int) =~= file.subrange(
            h.offset as int,
            h.offset as int + h.length as int,
        )) by {
            assert forall|t: int|
                0 <= t < h.length as int implies #[trigger] file2[h.offset + t] == file[h.offset
                + t] by {
                assert(file[h.offset + t] == file2.subrange(0, file.len() as int)[h.offset + t]);
            }
        }
    }
    if m.len() > 0 {
        assert(handles_within(m.skip(1), file.len() as int)) by {
            assert(forall|j: int| 0 <= j < m.skip(1).len() ==> m.skip(1)[j] == m[j + 1]);
        }
        lemma_blocks_extend(file, file2, m.skip(1));
    }
    if blocks_wf(file, m) {
        assert forall|j: int| 0 <= j < m.len() implies #[trigger] block_wf_at(file2, m, j) by {
            assert(block_wf_at(file, m, j));
        }
    }
}

/// In a sorted nonempty run the first key is the least.
pub proof fn lemma_first_le_last(bes: Seq<(Seq<u8>, EntryModel)>)
    requires
        entries_sorted(bes),
        bes.len() > 0,
    ensures
        lex_le(bes.first().0, bes.last().0),
{
    if bes.len() > 1 {
        assert(lex_lt(bes[0].0, bes[bes.len() - 1].0));
    }
}

/// A key strictly below the first block misses every block.
proof fn lemma_absent_when_low(
    file: Seq<u8>,
    m: Seq<(Seq<u8>, BlockHandle)>,
    k: Seq<u8>,
)
    requires
        blocks_wf(file, m),
        seps_sorted(m),
        m.len() > 0 ==> lex_lt(k, block_at(file, m[0].1)->Some_0.first().0),
    ensures
        lookup_entries(blocks_entries(file, m), k) == None::<EntryModel>,
    decreases m.len(),
{
    if m.len() == 0 {
    } else {
        assert(block_wf_at(file, m, 0));
        let bes = block_at(file, m[0].1)->Some_0;
        assert forall|t: int| 0 <= t < bes.len() implies bes[t].0 != k by {
            if t > 0 {
                assert(lex_lt(bes.first().0, bes[t].0));
                lemma_lex_lt_trans(k, bes.first().0, bes[t].0);
            }
            lemma_lex_trichotomy(k, bes[t].0);
        }
        lemma_lookup_absent(bes, k);
        lemma_lookup_concat(bes, blocks_entries(file, m.skip(1)), k);
        assert(blocks_wf(file, m.skip(1))) by {
            assert forall|j: int| 0 <= j < m.skip(1).len() implies #[trigger] block_wf_at(
                file,
                m.skip(1),
                j,
            ) by {
                assert(m.skip(1)[j] == m[j + 1]);
                assert(block_wf_at(file, m, j + 1));
                if j > 0 {
                    assert(m.skip(1)[j - 1] == m[j]);
                }
            }
        }
        assert(seps_sorted(m.skip(1))) by {
            assert(forall|i: int, j: int| 0 <= i < j < m.skip(1).len() ==> m.skip(1)[i] == m[i + 1]
                && m.skip(1)[j] == m[j + 1]);
        }
        if m.len() > 1 {
            assert(m.skip(1)[0] == m[1]);
            assert(block_wf_at(file, m, 1));
            let bes1 = block_at(file, m[1].1)->Some_0;
            lemma_first_le_last(bes);
            assert(lex_lt(m[0].0, bes1.first().0));
            lemma_lex_le_lt_trans(bes.first().0, bes.last().0, bes1.first().0);
            lemma_lex_lt_trans(k, bes.first().0, bes1.first().0);
        }
        lemma_absent_when_low(file, m.skip(1), k);
    }
}

/// Routing through the index agrees with scanning every entry in order: the
/// candidate block is the only one that can hold the key.
pub proof fn lemma_table_route(file: Seq<u8>, m: Seq<(Seq<u8>, BlockHandle)>, k: Seq<u8>)
    requires
        blocks_wf(file, m),
        seps_sorted(m),
        m.len() > 0,
    ensures
        lookup_entries(blocks_entries(file, m), k) == lookup_entries(
            block_at(file, m[route_idx(m, k)].1)->Some_0,
            k,
        ),
    decreases m.len(),
{
    assert(block_wf_at(file, m, 0));
    let bes = block_at(file, m[0].1)->Some_0;
    let rest = blocks_entries(file, m.skip(1));
    lemma_lookup_concat(bes, rest, k);
    assert(blocks_wf(file, m.skip(1))) by {
        assert forall|j: int| 0 <= j < m.skip(1).len() implies #[trigger] block_wf_at(
            file,
            m.skip(1),
            j,
        ) by {
            assert(m.skip(1)[j] == m[j + 1]);
            assert(block_wf_at(file, m, j + 1));
            if j > 0 {
                assert(m.skip(1)[j - 1] == m[j]);
            }
        }
    }
    assert(seps_sorted(m.skip(1))) by {
        assert(forall|i: int, j: int| 0 <= i < j < m.skip(1).len() ==> m.skip(1)[i] == m[i + 1]
            && m.skip(1)[j] == m[j + 1]);
    }
    if lex_le(k, m[0].0) {
        assert(route_idx(m, k) == 0);
        if lookup_entries(bes, k) is None {
            if m.len() > 1 {
                assert(m.skip(1)[0] == m[1]);
                assert(block_wf_at(file, m, 1));
                let bes1 = block_at(file, m[1].1)->Some_0;
                assert(lex_lt(m[0].0, bes1.first().0));
                lemma_lex_le_lt_trans(k, m[0].0, bes1.first().0);
            }
            lemma_absent_when_low(file, m.skip(1), k);
        }
    } else {
        // k lies above this block's separator, so above all of its keys.
        crate::keys::lemma_lex_le_or_lt(k, m[0].0);
        assert(lex_lt(m[0].0, k));
        assert forall|t: int| 0 <= t < bes.len() implies bes[t].0 != k by {
            if t < bes.len() - 1 {
                assert(lex_lt(bes[t].0, bes.last().0));
                lemma_lex_lt_trans(bes[t].0, bes.last().0, k);
            } else {
                assert(bes[t].0 == m[0].0);
            }
            lemma_lex_trichotomy(bes[t].0, k);
        }
        lemma_lookup_absent(bes, k);
        if m.len() == 1 {
            assert(route_idx(m, k) == 0);
            assert(blocks_entries(file, m.skip(1)) =~= Seq::<(Seq<u8>, EntryModel)>::empty());
        } else {
            lemma_table_route(file, m.skip(1), k);
            match find_ge(m.skip(1), k) {
                Some(i) => {
                    crate::index::lemma_find_ge_char(m.skip(1), k);
                    assert(0 <= i < m.skip(1).len());
                    assert(find_ge(m, k) == Some(i + 1));
                    assert(route_idx(m, k) == i + 1);
                    assert(route_idx(m.skip(1), k) == i);
                    assert(m.skip(1)[i] == m[i + 1]);
                }
                None => {
                    assert(find_ge(m, k) is None);
                    assert(route_idx(m, k) == m.len() - 1);
                    assert(m.skip(1).len() == m.len() - 1);
                    assert(route_idx(m.skip(1), k) == m.len() - 2);
                    assert(m.skip(1)[m.len() - 2] == m[m.len() - 1]);
                }
            }
        }
    }
}

} // verus!
