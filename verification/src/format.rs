//! The sorted-table file format, bit-exact: entry runs inside blocks, the
//! separator index, and the fixed footer, each with its little-endian layout
//! and CRC-32 trailer.
use vstd::prelude::*;
use vstd::bytes::*;
use crate::model::EntryModel;
use crate::crc::crc32_of;

verus! {

/// Format version written into every footer.
pub const SSTABLE_VERSION: u32 = 1;

/// Magic constant at the head of every footer.
pub const SSTABLE_MAGIC: u64 = 0xF3515A5453544142;

/// Byte length of the fixed footer: magic, version, index length, index offset.
pub const FOOTER_SIZE: usize = 24;

/// A byte range inside a table file.
#[derive(Copy, Clone, PartialEq, Eq, Structural, Debug)]
pub struct BlockHandle {
    pub offset: u64,
    pub length: u32,
}

/// Identifier of a published table, allocated by the engine and never reused.
pub type TableId = u64;

/// One encoded entry: tag byte, key length, value length, key, value.
pub open spec fn enc_entry(k: Seq<u8>, e: EntryModel) -> Seq<u8> {
    match e {
        EntryModel::Put(v) => seq![0u8] + spec_u32_to_le_bytes(k.len() as u32)
            + spec_u32_to_le_bytes(v.len() as u32) + k + v,
        EntryModel::Delete => seq![1u8] + spec_u32_to_le_bytes(k.len() as u32)
            + spec_u32_to_le_bytes(0u32) + k,
    }
}

/// The entries of a block, encoded back to back.
pub open spec fn enc_entries(es: Seq<(Seq<u8>, EntryModel)>) -> Seq<u8>
    decreases es.len(),
{
    if es.len() == 0 {
        Seq::empty()
    } else {
        enc_entry(es[0].0, es[0].1) + enc_entries(es.skip(1))
    }
}

/// Key and value lengths each fit the format's 32-bit length words.
pub open spec fn entry_lens_ok(es: Seq<(Seq<u8>, EntryModel)>) -> bool {
    forall|i: int| 0 <= i < es.len() ==> #[trigger] es[i].0.len() <= u32::MAX
        && (es[i].1 matches EntryModel::Put(v) ==> v.len() <= u32::MAX)
}

/// Decode a run of encoded entries; `None` on any malformed byte.
pub open spec fn parse_entries(b: Seq<u8>) -> Option<Seq<(Seq<u8>, EntryModel)>>
    decreases b.len(),
{
    if b.len() == 0 {
        Some(Seq::empty())
    } else if b.len() < 9 {
        None
    } else {
        let tag = b[0];
        let klen = spec_u32_from_le_bytes(b.subrange(1, 5)) as int;
        let vlen = spec_u32_from_le_bytes(b.subrange(5, 9)) as int;
        if tag == 0u8 {
            if 9 + klen + vlen <= b.len() {
                let k = b.subrange(9, 9 + klen);
                let v = b.subrange(9 + klen, 9 + klen + vlen);
                match parse_entries(b.skip(9 + klen + vlen)) {
                    Some(es) => Some(seq![(k, EntryModel::Put(v))] + es),
                    None => None,
                }
            } else {
                None
            }
        } else if tag == 1u8 {
            if vlen == 0 && 9 + klen <= b.len() {
                let k = b.subrange(9, 9 + klen);
                match parse_entries(b.skip(9 + klen)) {
                    Some(es) => Some(seq![(k, EntryModel::Delete)] + es),
                    None => None,
                }
            } else {
                None
            }
        } else {
            None
        }
    }
}

/// A finalized block: the encoded entries and the CRC of exactly those bytes.
pub open spec fn enc_block(es: Seq<(Seq<u8>, EntryModel)>) -> Seq<u8> {
    enc_entries(es) + spec_u32_to_le_bytes(crc32_of(enc_entries(es)))
}

/// Decode a block: check the CRC trailer, then the entry run.
pub open spec fn parse_block(b: Seq<u8>) -> Option<Seq<(Seq<u8>, EntryModel)>> {
    if b.len() < 4 {
        None
    } else {
        let payload = b.subrange(0, b.len() - 4);
        let stored = spec_u32_from_le_bytes(b.subrange(b.len() - 4, b.len() as int));
        if stored == crc32_of(payload) {
            parse_entries(payload)
        } else {
            None
        }
    }
}

/// One encoded index entry: separator length, separator, block offset, block length.
pub open spec fn enc_index_entry(sep: Seq<u8>, h: BlockHandle) -> Seq<u8> {
    spec_u32_to_le_bytes(sep.len() as u32) + sep + spec_u64_to_le_bytes(h.offset)
        + spec_u32_to_le_bytes(h.length)
}

/// The index entries, encoded back to back.
pub open spec fn enc_index_entries(m: Seq<(Seq<u8>, BlockHandle)>) -> Seq<u8>
    decreases m.len(),
{
    if m.len() == 0 {
        Seq::empty()
    } else {
        enc_index_entry(m[0].0, m[0].1) + enc_index_entries(m.skip(1))
    }
}

/// Separator lengths fit the 32-bit length words and the count fits its word.
pub open spec fn index_lens_ok(m: Seq<(Seq<u8>, BlockHandle)>) -> bool {
    m.len() <= u32::MAX && forall|i: int| 0 <= i < m.len() ==> #[trigger] m[i].0.len() <= u32::MAX
}

/// The whole index section: count, entries, CRC of both.
pub open spec fn enc_index(m: Seq<(Seq<u8>, BlockHandle)>) -> Seq<u8> {
    let payload = spec_u32_to_le_bytes(m.len() as u32) + enc_index_entries(m);
    payload + spec_u32_to_le_bytes(crc32_of(payload))
}

/// Decode `n` index entries from the front of `b`; bytes past them are ignored.
pub open spec fn parse_index_entries(b: Seq<u8>, n: nat) -> Option<Seq<(Seq<u8>, BlockHandle)>>
    decreases n,
{
    if n == 0 {
        Some(Seq::empty())
    } else if b.len() < 4 {
        None
    } else {
        let klen = spec_u32_from_le_bytes(b.subrange(0, 4)) as int;
        if 4 + klen + 12 <= b.len() {
            let sep = b.subrange(4, 4 + klen);
            let offset = spec_u64_from_le_bytes(b.subrange(4 + klen, 4 + klen + 8));
            let length = spec_u32_from_le_bytes(b.subrange(4 + klen + 8, 4 + klen + 12));
            match parse_index_entries(b.skip(16 + klen), (n - 1) as nat) {
                Some(m) => Some(seq![(sep, BlockHandle { offset, length })] + m),
                None => None,
            }
        } else {
            None
        }
    }
}

/// Decode an index section after its CRC has been accepted.
pub open spec fn parse_index_payload(p: Seq<u8>) -> Option<Seq<(Seq<u8>, BlockHandle)>> {
    if p.len() < 4 {
        None
    } else {
        parse_index_entries(p.skip(4), spec_u32_from_le_bytes(p.subrange(0, 4)) as nat)
    }
}

/// Decode a full index section: CRC trailer first, then count and entries.
pub open spec fn parse_index(b: Seq<u8>) -> Option<Seq<(Seq<u8>, BlockHandle)>> {
    if b.len() < 8 {
        None
    } else {
        let payload = b.subrange(0, b.len() - 4);
        let stored = spec_u32_from_le_bytes(b.subrange(b.len() - 4, b.len() as int));
        if stored == crc32_of(payload) {
            parse_index_payload(payload)
        } else {
            None
        }
    }
}

/// The fixed footer: magic, version, index length, index offset.
pub open spec fn enc_footer(index_len: u32, index_off: u64) -> Seq<u8> {
    spec_u64_to_le_bytes(SSTABLE_MAGIC) + spec_u32_to_le_bytes(SSTABLE_VERSION)
        + spec_u32_to_le_bytes(index_len) + spec_u64_to_le_bytes(index_off)
}

/// Read the footer off the file's tail: index offset and index length.
pub open spec fn parse_footer(file: Seq<u8>) -> Option<(u64, u32)> {
    if file.len() < FOOTER_SIZE {
        None
    } else {
        let f = file.subrange(file.len() - FOOTER_SIZE, file.len() as int);
        if spec_u64_from_le_bytes(f.subrange(0, 8)) == SSTABLE_MAGIC
            && spec_u32_from_le_bytes(f.subrange(8, 12)) == SSTABLE_VERSION {
            Some((spec_u64_from_le_bytes(f.subrange(16, 24)), spec_u32_from_le_bytes(f.subrange(12, 16))))
        } else {
            None
        }
    }
}

/// Entry runs encode piecewise: the encoding of a concatenation is the
/// concatenation of the encodings.
pub proof fn lemma_enc_entries_concat(a: Seq<(Seq<u8>, EntryModel)>, b: Seq<(Seq<u8>, EntryModel)>)
    ensures
        enc_entries(a + b) == enc_entries(a) + enc_entries(b),
    decreases a.len(),
{
    if a.len() == 0 {
        assert(a + b =~= b);
        assert(enc_entries(a) + enc_entries(b) =~= enc_entries(b));
    } else {
        assert((a + b)[0] == a[0]);
        assert((a + b).skip(1) =~= a.skip(1) + b);
        lemma_enc_entries_concat(a.skip(1), b);
        assert(enc_entry(a[0].0, a[0].1) + (enc_entries(a.skip(1)) + enc_entries(b)) =~= (
        enc_entry(a[0].0, a[0].1) + enc_entries(a.skip(1))) + enc_entries(b));
    }
}

/// Appending one entry extends the encoding at its tail.
pub proof fn lemma_enc_entries_push(es: Seq<(Seq<u8>, EntryModel)>, k: Seq<u8>, e: EntryModel)
    ensures
        enc_entries(es.push((k, e))) == enc_entries(es) + enc_entry(k, e),
    decreases es.len(),
{
    let w = es.push((k, e));
    if es.len() == 0 {
        assert(w[0] == (k, e));
        assert(w.skip(1) =~= Seq::<(Seq<u8>, EntryModel)>::empty());
        assert(enc_entries(w) == enc_entry(k, e) + enc_entries(
            Seq::<(Seq<u8>, EntryModel)>::empty(),
        ));
        assert(enc_entries(w) =~= enc_entries(es) + enc_entry(k, e));
    } else {
        assert(w[0] == es[0]);
        assert(w.skip(1) =~= es.skip(1).push((k, e)));
        lemma_enc_entries_push(es.skip(1), k, e);
        assert(enc_entry(es[0].0, es[0].1) + (enc_entries(es.skip(1)) + enc_entry(k, e)) =~= (
        enc_entry(es[0].0, es[0].1) + enc_entries(es.skip(1))) + enc_entry(k, e));
    }
}

/// Appending one index entry extends the encoding at its tail.
pub proof fn lemma_enc_index_entries_push(m: Seq<(Seq<u8>, BlockHandle)>, sep: Seq<u8>, h: BlockHandle)
    ensures
        enc_index_entries(m.push((sep, h))) == enc_index_entries(m) + enc_index_entry(sep, h),
    decreases m.len(),
{
    let w = m.push((sep, h));
    if m.len() == 0 {
        assert(w[0] == (sep, h));
        assert(w.skip(1) =~= Seq::<(Seq<u8>, BlockHandle)>::empty());
        assert(enc_index_entries(w) == enc_index_entry(sep, h) + enc_index_entries(
            Seq::<(Seq<u8>, BlockHandle)>::empty(),
        ));
        assert(enc_index_entries(w) =~= enc_index_entries(m) + enc_index_entry(sep, h));
    } else {
        assert(w[0] == m[0]);
        assert(w.skip(1) =~= m.skip(1).push((sep, h)));
        lemma_enc_index_entries_push(m.skip(1), sep, h);
        assert(enc_index_entry(m[0].0, m[0].1) + (enc_index_entries(m.skip(1)) + enc_index_entry(
        sep, h)) =~= (enc_index_entry(m[0].0, m[0].1) + enc_index_entries(m.skip(1)))
            + enc_index_entry(sep, h));
    }
}

/// Decoding inverts encoding for entry runs.
pub proof fn lemma_parse_enc_entries(es: Seq<(Seq<u8>, EntryModel)>)
    requires
        entry_lens_ok(es),
    ensures
        parse_entries(enc_entries(es)) == Some(es),
    decreases es.len(),
{
    lemma_auto_spec_u32_to_from_le_bytes();
    if es.len() == 0 {
    } else {
        let k = es[0].0;
        let head = enc_entry(k, es[0].1);
        let rest = enc_entries(es.skip(1));
        let b = enc_entries(es);
        assert(b == head + rest);
        assert(entry_lens_ok(es.skip(1))) by {
            assert(forall|i: int| 0 <= i < es.skip(1).len() ==> es.skip(1)[i] == es[i + 1]);
        }
        lemma_parse_enc_entries(es.skip(1));
        let kl = k.len() as int;
        match es[0].1 {
            EntryModel::Put(v) => {
                let vl = v.len() as int;
                assert(head.len() == 9 + kl + vl);
                assert(b[0] == 0u8);
                assert(b.subrange(1, 5) =~= spec_u32_to_le_bytes(k.len() as u32));
                assert(b.subrange(5, 9) =~= spec_u32_to_le_bytes(v.len() as u32));
                assert(b.subrange(9, 9 + kl) =~= k);
                assert(b.subrange(9 + kl, 9 + kl + vl) =~= v);
                assert(b.skip(9 + kl + vl) =~= rest);
                assert(seq![(k, EntryModel::Put(v))] + es.skip(1) =~= es);
            }
            EntryModel::Delete => {
                assert(head.len() == 9 + kl);
                assert(b[0] == 1u8);
                assert(b.subrange(1, 5) =~= spec_u32_to_le_bytes(k.len() as u32));
                assert(b.subrange(5, 9) =~= spec_u32_to_le_bytes(0u32));
                assert(b.subrange(9, 9 + kl) =~= k);
                assert(b.skip(9 + kl) =~= rest);
                assert(seq![(k, EntryModel::Delete)] + es.skip(1) =~= es);
            }
        }
    }
}

/// Decoding inverts encoding for whole blocks.
pub proof fn lemma_parse_enc_block(es: Seq<(Seq<u8>, EntryModel)>)
    requires
        entry_lens_ok(es),
    ensures
        parse_block(enc_block(es)) == Some(es),
{
    lemma_auto_spec_u32_to_from_le_bytes();
    let p = enc_entries(es);
    let b = enc_block(es);
    assert(b.subrange(0, b.len() - 4) =~= p);
    assert(b.subrange(b.len() - 4, b.len() as int) =~= spec_u32_to_le_bytes(crc32_of(p)));
    lemma_parse_enc_entries(es);
}

/// Decoding inverts encoding for index entry runs.
pub proof fn lemma_parse_enc_index_entries(m: Seq<(Seq<u8>, BlockHandle)>)
    requires
        forall|i: int| 0 <= i < m.len() ==> #[trigger] m[i].0.len() <= u32::MAX,
    ensures
        parse_index_entries(enc_index_entries(m), m.len()) == Some(m),
    decreases m.len(),
{
    lemma_auto_spec_u32_to_from_le_bytes();
    lemma_auto_spec_u64_to_from_le_bytes();
    if m.len() == 0 {
    } else {
        let sep = m[0].0;
        let h = m[0].1;
        let head = enc_index_entry(sep, h);
        let rest = enc_index_entries(m.skip(1));
        let b = enc_index_entries(m);
        assert(b == head + rest);
        let kl = sep.len() as int;
        assert(head.len() == 16 + kl);
        assert(b.subrange(0, 4) =~= spec_u32_to_le_bytes(sep.len() as u32));
        assert(b.subrange(4, 4 + kl) =~= sep);
        assert(b.subrange(4 + kl, 4 + kl + 8) =~= spec_u64_to_le_bytes(h.offset));
        assert(b.subrange(4 + kl + 8, 4 + kl + 12) =~= spec_u32_to_le_bytes(h.length));
        assert(b.skip(16 + kl) =~= rest);
        assert(forall|i: int| 0 <= i < m.skip(1).len() ==> m.skip(1)[i] == m[i + 1]);
        lemma_parse_enc_index_entries(m.skip(1));
        assert(seq![(sep, h)] + m.skip(1) =~= m);
    }
}

/// Decoding inverts encoding for whole index sections.
pub proof fn lemma_parse_enc_index(m: Seq<(Seq<u8>, BlockHandle)>)
    requires
        index_lens_ok(m),
    ensures
        parse_index(enc_index(m)) == Some(m),
{
    lemma_auto_spec_u32_to_from_le_bytes();
    let payload = spec_u32_to_le_bytes(m.len() as u32) + enc_index_entries(m);
    let b = enc_index(m);
    assert(b.subrange(0, b.len() - 4) =~= payload);
    assert(b.subrange(b.len() - 4, b.len() as int) =~= spec_u32_to_le_bytes(crc32_of(payload)));
    assert(payload.subrange(0, 4) =~= spec_u32_to_le_bytes(m.len() as u32));
    assert(payload.skip(4) =~= enc_index_entries(m));
    lemma_parse_enc_index_entries(m);
}

/// Reading the footer back inverts writing it.
pub proof fn lemma_parse_enc_footer(prefix: Seq<u8>, index_len: u32, index_off: u64)
    ensures
        parse_footer(prefix + enc_footer(index_len, index_off)) == Some((index_off, index_len)),
{
    lemma_auto_spec_u32_to_from_le_bytes();
    lemma_auto_spec_u64_to_from_le_bytes();
    let file = prefix + enc_footer(index_len, index_off);
    let f = file.subrange(file.len() - FOOTER_SIZE, file.len() as int);
    assert(f =~= enc_footer(index_len, index_off));
    assert(f.subrange(0, 8) =~= spec_u64_to_le_bytes(SSTABLE_MAGIC));
    assert(f.subrange(8, 12) =~= spec_u32_to_le_bytes(SSTABLE_VERSION));
    assert(f.subrange(12, 16) =~= spec_u32_to_le_bytes(index_len));
    assert(f.subrange(16, 24) =~= spec_u64_to_le_bytes(index_off));
}

} // verus!
