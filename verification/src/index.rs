//! The separator index of a table: a sorted map from each block's largest key
//! to the block's byte range, answering point lookups by binary search.
use vstd::prelude::*;
use vstd::bytes::{
    spec_u32_from_le_bytes, u32_from_le_bytes, u32_to_le_bytes, u64_from_le_bytes, u64_to_le_bytes,
};
use vstd::slice::{slice_subrange, slice_to_vec};
use crate::crc::{crc32, crc32_of};
use crate::errors::StoreError;
use crate::format::{
    enc_index, enc_index_entries, enc_index_entry, index_lens_ok, lemma_enc_index_entries_push,
    parse_index_entries, parse_index_payload, BlockHandle,
};
use crate::keys::{key_le, lemma_lex_le_or_lt, lemma_lex_lt_trans, lex_le, lex_lt};

verus! {

/// Separators strictly increase along the index.
pub open spec fn seps_sorted(m: Seq<(Seq<u8>, BlockHandle)>) -> bool {
    forall|i: int, j: int| 0 <= i < j < m.len() ==> lex_lt(m[i].0, m[j].0)
}

/// Index of the first separator at or above `k`, if any.
pub open spec fn find_ge(m: Seq<(Seq<u8>, BlockHandle)>, k: Seq<u8>) -> Option<int>
    decreases m.len(),
{
    if m.len() == 0 {
        None
    } else if lex_le(k, m[0].0) {
        Some(0int)
    } else {
        match find_ge(m.skip(1), k) {
            Some(i) => Some(i + 1),
            None => None,
        }
    }
}

/// The block a lookup for `k` must visit: the first separator at or above
/// `k`, or the last block when `k` exceeds every separator.
pub open spec fn route_idx(m: Seq<(Seq<u8>, BlockHandle)>, k: Seq<u8>) -> int {
    match find_ge(m, k) {
        Some(i) => i,
        None => m.len() - 1,
    }
}

/// The handle `find_block` owes: none only for an empty index.
pub open spec fn spec_find_block(m: Seq<(Seq<u8>, BlockHandle)>, k: Seq<u8>) -> Option<
    BlockHandle,
> {
    if m.len() == 0 {
        None
    } else {
        Some(m[route_idx(m, k)].1)
    }
}

/// What `find_ge` returns: the least index whose separator is at or above `k`.
pub proof fn lemma_find_ge_char(m: Seq<(Seq<u8>, BlockHandle)>, k: Seq<u8>)
    ensures
        match find_ge(m, k) {
            Some(i) => 0 <= i < m.len() && lex_le(k, m[i].0) && forall|j: int|
                0 <= j < i ==> !lex_le(k, #[trigger] m[j].0),
            None => forall|j: int| 0 <= j < m.len() ==> !lex_le(k, #[trigger] m[j].0),
        },
    decreases m.len(),
{
    if m.len() == 0 {
    } else if lex_le(k, m[0].0) {
    } else {
        lemma_find_ge_char(m.skip(1), k);
        match find_ge(m.skip(1), k) {
            Some(i) => {
                assert(m.skip(1)[i] == m[i + 1]);
                assert forall|j: int| 0 <= j < i + 1 implies !lex_le(k, #[trigger] m[j].0) by {
                    if j > 0 {
                        assert(m.skip(1)[j - 1] == m[j]);
                        assert(!lex_le(k, m.skip(1)[j - 1].0));
                    }
                }
            }
            None => {
                assert forall|j: int| 0 <= j < m.len() implies !lex_le(k, #[trigger] m[j].0) by {
                    if j > 0 {
                        assert(m.skip(1)[j - 1] == m[j]);
                        assert(!lex_le(k, m.skip(1)[j - 1].0));
                    }
                }
            }
        }
    }
}

/// The sorted separator-key map of one table.
#[derive(Debug)]
pub struct Index {
    entries: Vec<(Vec<u8>, BlockHandle)>,
}

impl Index {
    /// The separator-to-handle pairs, in insertion order.
    pub closed spec fn spec_entries(self) -> Seq<(Seq<u8>, BlockHandle)> {
        self.entries@.map(|i: int, e: (Vec<u8>, BlockHandle)| (e.0@, e.1))
    }

    /// Opens an empty index.
    pub fn new() -> (r: Self)
        ensures
            r.spec_entries() == Seq::<(Seq<u8>, BlockHandle)>::empty(),
    {
        let r = Self { entries: Vec::new() };
        proof {
            assert(r.spec_entries() =~= Seq::<(Seq<u8>, BlockHandle)>::empty());
        }
        r
    }

    /// Number of separators recorded so far.
    pub fn len(&self) -> (r: usize)
        ensures
            r == self.spec_entries().len(),
    {
        self.entries.len()
    }

    /// Records the next block: its largest key and its byte range. The builder
    /// hands separators over in strictly increasing order.
    pub fn add(&mut self, sep_key: &[u8], handle: BlockHandle)
        ensures
            final(self).spec_entries() == old(self).spec_entries().push((sep_key@, handle)),
    {
        let sep = slice_to_vec(sep_key);
        self.entries.push((sep, handle));
        proof {
            assert(final(self).spec_entries() =~= old(self).spec_entries().push((sep_key@, handle)));
        }
    }

    /// The byte range of the `i`-th block.
    pub fn handle_at(&self, i: usize) -> (r: BlockHandle)
        requires
            i < self.spec_entries().len(),
        ensures
            r == self.spec_entries()[i as int].1,
    {
        self.entries[i].1
    }

    /// Decides whether the separators strictly increase.
    #[verifier::loop_isolation(false)]
    pub fn check_sorted(&self) -> (r: bool)
        ensures
            r == seps_sorted(self.spec_entries()),
    {
        let ghost m = self.spec_entries();
        let n = self.entries.len();
        let mut i: usize = 1;
        while i < n
            invariant
                1 <= i <= n || n == 0,
                forall|p: int, q: int| 0 <= p < q < i ==> lex_lt(m[p].0, m[q].0),
            decreases n - i,
        {
            let a = &self.entries[i - 1].0;
            let b = &self.entries[i].0;
            if !crate::keys::key_lt(a.as_slice(), b.as_slice()) {
                assert(!lex_lt(m[i - 1].0, m[i as int].0));
                return false;
            }
            proof {
                assert forall|p: int, q: int| 0 <= p < q < i + 1 implies lex_lt(m[p].0, m[q].0) by {
                    if q == i {
                        if p < i - 1 {
                            assert(lex_lt(m[p].0, m[i - 1].0));
                            lemma_lex_lt_trans(m[p].0, m[i - 1].0, m[i as int].0);
                        }
                    }
                }
            }
            i = i + 1;
        }
        true
    }

    /// Binary search for the one candidate block of `key`: the first separator
    /// at or above it, falling back to the last block, none when empty.
    #[verifier::loop_isolation(false)]
    pub fn find_block(&self, key: &[u8]) -> (r: Option<BlockHandle>)
        requires
            seps_sorted(self.spec_entries()),
        ensures
            r == spec_find_block(self.spec_entries(), key@),
    {
        let ghost m = self.spec_entries();
        let n = self.entries.len();
        if n == 0 {
            return None;
        }
        let mut lo: usize = 0;
        let mut hi: usize = n;
        while lo < hi
            invariant
                0 <= lo <= hi <= n,
                forall|j: int| 0 <= j < lo ==> !lex_le(key@, #[trigger] m[j].0),
                forall|j: int| hi <= j < n ==> lex_le(key@, #[trigger] m[j].0),
            decreases hi - lo,
    {
            let mid = lo + (hi - lo) / 2;
            let sep = &self.entries[mid].0;
            assert(sep@ == m[mid as int].0);
            if key_le(key, sep.as_slice()) {
                proof {
                    assert forall|j: int| mid <= j < n implies lex_le(key@, #[trigger] m[j].0) by {
                        if j > mid {
                            assert(lex_lt(m[mid as int].0, m[j].0));
                            if key@ == m[mid as int].0 {
                            } else {
                                lemma_lex_lt_trans(key@, m[mid as int].0, m[j].0);
                            }
                        }
                    }
                }
                hi = mid;
            } else {
                proof {
                    lemma_lex_le_or_lt(key@, m[mid as int].0);
                    assert forall|j: int| 0 <= j <= mid implies !lex_le(key@, #[trigger] m[j].0) by {
                        if j < mid {
                            assert(lex_lt(m[j].0, m[mid as int].0));
                            lemma_lex_lt_trans(m[j].0, m[mid as int].0, key@);
                            lemma_lex_le_or_lt(key@, m[j].0);
                        }
                    }
                }
                lo = mid + 1;
            }
        }
        let idx = if lo < n {
            lo
        } else {
            n - 1
        };
        proof {
            lemma_find_ge_char(m, key@);
            if lo < n {
                assert(lex_le(key@, m[lo as int].0));
                match find_ge(m, key@) {
                    Some(i) => {
                        if i < lo {
                            assert(!lex_le(key@, m[i].0));
                        }
                        if i > lo {
                            assert(!lex_le(key@, m[lo as int].0));
                        }
                    }
                    None => {
                        assert(!lex_le(key@, m[lo as int].0));
                    }
                }
            } else {
                match find_ge(m, key@) {
                    Some(i) => {
                        assert(!lex_le(key@, m[i].0));
                    }
                    None => {}
                }
            }
        }
        Some(self.entries[idx].1)
    }

    /// Encodes the index section: count, entries, CRC of both.
    #[verifier::loop_isolation(false)]
    pub fn encode(self) -> (out: Vec<u8>)
        requires
            index_lens_ok(self.spec_entries()),
        ensures
            out@ == enc_index(self.spec_entries()),
    {
        let ghost m = self.spec_entries();
        let count = self.entries.len();
        let mut out = u32_to_le_bytes(count as u32);
        let ghost payload0 = out@;
        proof {
            assert(m.take(0) =~= Seq::<(Seq<u8>, BlockHandle)>::empty());
            assert(out@ =~= payload0 + enc_index_entries(m.take(0)));
        }
        let mut i: usize = 0;
        while i < count
            invariant
                0 <= i <= count,
                out@ == payload0 + enc_index_entries(m.take(i as int)),
            decreases count - i,
        {
            let sep_len = self.entries[i].0.len();
            let mut sl = u32_to_le_bytes(sep_len as u32);
            out.append(&mut sl);
            let mut sb = slice_to_vec(self.entries[i].0.as_slice());
            out.append(&mut sb);
            let mut ob = u64_to_le_bytes(self.entries[i].1.offset);
            out.append(&mut ob);
            let mut lb = u32_to_le_bytes(self.entries[i].1.length);
            out.append(&mut lb);
            proof {
                assert(m[i as int] == (self.entries@[i as int].0@, self.entries@[i as int].1));
                lemma_enc_index_entries_push(m.take(i as int), m[i as int].0, m[i as int].1);
                assert(m.take(i as int).push(m[i as int]) =~= m.take(i + 1));
                assert(out@ =~= payload0 + enc_index_entries(m.take(i + 1)));
            }
            i = i + 1;
        }
        proof {
            assert(m.take(count as int) =~= m);
        }
        let crc = crc32(out.as_slice());
        let mut trailer = u32_to_le_bytes(crc);
        out.append(&mut trailer);
        proof {
            assert(out@ =~= enc_index(m));
        }
        out
    }

    /// Reads an index section back: verifies the CRC trailer, then decodes
    /// exactly the recorded number of entries.
    #[verifier::loop_isolation(false)]
    pub fn decode(bytes: &[u8]) -> (r: Result<Index, StoreError>)
        ensures
            ({
                let n = bytes@.len() as int;
                match r {
                    Ok(ix) => n >= 8 && spec_u32_from_le_bytes(bytes@.subrange(n - 4, n))
                        == crc32_of(bytes@.subrange(0, n - 4)) && parse_index_payload(
                        bytes@.subrange(0, n - 4),
                    ) == Some(ix.spec_entries()),
                    Err(StoreError::Truncated) => n < 8 || (spec_u32_from_le_bytes(
                        bytes@.subrange(n - 4, n),
                    ) == crc32_of(bytes@.subrange(0, n - 4)) && parse_index_payload(
                        bytes@.subrange(0, n - 4),
                    ) is None),
                    Err(StoreError::Corruption) => n >= 8 && spec_u32_from_le_bytes(
                        bytes@.subrange(n - 4, n),
                    ) != crc32_of(bytes@.subrange(0, n - 4)),
                    Err(_) => false,
                }
            }),
    {
        let n = bytes.len();
        if n < 8 {
            return Err(StoreError::Truncated);
        }
        let payload = slice_subrange(bytes, 0, n - 4);
        let trailer = slice_subrange(bytes, n - 4, n);
        let stored = u32_from_le_bytes(trailer);
        let calc = crc32(payload);
        if stored != calc {
            return Err(StoreError::Corruption);
        }
        let m = n - 4;
        let count_word = u32_from_le_bytes(slice_subrange(payload, 0, 4));
        proof {
            assert(payload@.subrange(0, 4) =~= bytes@.subrange(0, n - 4).subrange(0, 4));
        }
        let count = count_word as usize;
        let mut acc = Index { entries: Vec::new() };
        let mut p: usize = 4;
        let mut i: usize = 0;
        proof {
            assert(acc.spec_entries() =~= Seq::<(Seq<u8>, BlockHandle)>::empty());
            assert(payload@.skip(4) =~= payload@.skip(4));
            if parse_index_entries(payload@.skip(4), count as nat) is Some {
                assert(acc.spec_entries() + parse_index_entries(payload@.skip(4), count as nat)->Some_0
                    =~= parse_index_entries(payload@.skip(4), count as nat)->Some_0);
            }
        }
        while i < count
            invariant
                4 <= p <= m,
                0 <= i <= count,
                parse_index_entries(payload@.skip(4), count as nat) == (match parse_index_entries(
                    payload@.skip(p as int),
                    (count - i) as nat,
                ) {
                    Some(tl) => Some(acc.spec_entries() + tl),
                    None => None::<Seq<(Seq<u8>, BlockHandle)>>,
                }),
            decreases count - i,
        {
            let ghost s = payload@.skip(p as int);
            if m - p < 16 {
                assert(parse_index_entries(s, (count - i) as nat) is None);
                return Err(StoreError::Truncated);
            }
            let klw = u32_from_le_bytes(slice_subrange(payload, p, p + 4));
            proof {
                assert(payload@.subrange(p as int, p + 4) =~= s.subrange(0, 4));
            }
            let klen = klw as usize;
            if klen > m - p - 16 {
                assert(parse_index_entries(s, (count - i) as nat) is None);
                return Err(StoreError::Truncated);
            }
            let sep = slice_to_vec(slice_subrange(payload, p + 4, p + 4 + klen));
            let off = u64_from_le_bytes(slice_subrange(payload, p + 4 + klen, p + 4 + klen + 8));
            let blen = u32_from_le_bytes(
                slice_subrange(payload, p + 4 + klen + 8, p + 4 + klen + 12),
            );
            let h = BlockHandle { offset: off, length: blen };
            proof {
                assert(payload@.subrange(p + 4, p + 4 + klen) =~= s.subrange(4, 4 + klen));
                assert(payload@.subrange(p + 4 + klen, p + 4 + klen + 8) =~= s.subrange(
                    4 + klen,
                    4 + klen + 8,
                ));
                assert(payload@.subrange(p + 4 + klen + 8, p + 4 + klen + 12) =~= s.subrange(
                    4 + klen + 8,
                    4 + klen + 12,
                ));
                assert(s.skip(16 + klen) =~= payload@.skip(p + 16 + klen));
                assert(acc.spec_entries().push((sep@, h)) =~= acc.spec_entries() + seq![(sep@, h)]);
                if parse_index_entries(payload@.skip(p + 16 + klen), (count - i - 1) as nat)
                    is Some {
                    let tl = parse_index_entries(
                        payload@.skip(p + 16 + klen),
                        (count - i - 1) as nat,
                    )->Some_0;
                    assert(parse_index_entries(s, (count - i) as nat) == Some(
                        seq![(sep@, h)] + tl,
                    ));
                    assert((acc.spec_entries() + seq![(sep@, h)]) + tl =~= acc.spec_entries() + (
                    seq![(sep@, h)] + tl));
                }
            }
            let ghost acc_old = acc.spec_entries();
            acc.entries.push((sep, h));
            proof {
                assert(acc.spec_entries() =~= acc_old.push((sep@, h)));
            }
            p = p + 16 + klen;
            i = i + 1;
        }
        proof {
            assert(parse_index_entries(payload@.skip(p as int), 0nat) == Some(
                Seq::<(Seq<u8>, BlockHandle)>::empty(),
            ));
            assert(acc.spec_entries() + Seq::<(Seq<u8>, BlockHandle)>::empty()
                =~= acc.spec_entries());
        }
        Ok(acc)
    }
}

} // verus!
