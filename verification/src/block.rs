//! Blocks: fixed-target-size, checksummed runs of encoded entries, the atomic
//! unit of on-disk storage.
use vstd::prelude::*;
use vstd::bytes::{u32_from_le_bytes, u32_to_le_bytes, spec_u32_from_le_bytes};
use vstd::slice::{slice_subrange, slice_to_vec};
use crate::crc::{crc32, crc32_of};
use crate::errors::StoreError;
use crate::format::{
    enc_block, enc_entries, enc_entry, entry_lens_ok, lemma_enc_entries_push, parse_entries,
};
use crate::model::{kv_view, Entry, EntryModel};

verus! {

/// A block under construction: encoded entries accumulate in `payload` until
/// the target size is reached; `encode` seals them under a CRC trailer.
pub struct DataBlock {
    target_bytes: usize,
    payload: Vec<u8>,
    entries: usize,
    history: Ghost<Seq<(Seq<u8>, EntryModel)>>,
}

impl DataBlock {
    /// The entries appended so far, in order.
    pub closed spec fn spec_entries(self) -> Seq<(Seq<u8>, EntryModel)> {
        self.history@
    }

    /// The encoded payload bytes so far.
    pub closed spec fn spec_payload(self) -> Seq<u8> {
        self.payload@
    }

    /// The size threshold this block was opened with.
    pub closed spec fn spec_target(self) -> nat {
        self.target_bytes as nat
    }

    /// The payload is exactly the encoding of the appended entries.
    pub closed spec fn wf(self) -> bool {
        &&& self.payload@ == enc_entries(self.history@)
        &&& self.entries == self.history@.len()
        &&& entry_lens_ok(self.history@)
        &&& 9 * self.history@.len() <= self.payload@.len()
    }

    /// A well-formed block's entries fit the format's length words.
    pub proof fn lemma_wf_facts(&self)
        requires
            self.wf(),
        ensures
            entry_lens_ok(self.spec_entries()),
            self.spec_payload() == enc_entries(self.spec_entries()),
    {
    }

    /// Opens an empty block with the given target payload size.
    pub fn new(target_bytes: usize) -> (r: Self)
        ensures
            r.wf(),
            r.spec_entries() == Seq::<(Seq<u8>, EntryModel)>::empty(),
            r.spec_target() == target_bytes as nat,
    {
        Self {
            target_bytes,
            payload: Vec::with_capacity(target_bytes),
            entries: 0,
            history: Ghost(Seq::empty()),
        }
    }

    /// Appends a value entry for `key`.
    pub fn add_put(&mut self, key: &[u8], value: &[u8])
        requires
            old(self).wf(),
            key@.len() <= u32::MAX,
            value@.len() <= u32::MAX,
        ensures
            final(self).wf(),
            final(self).spec_entries() == old(self).spec_entries().push(
                (key@, EntryModel::Put(value@)),
            ),
            final(self).spec_payload() == old(self).spec_payload() + enc_entry(
                key@,
                EntryModel::Put(value@),
            ),
            final(self).spec_target() == old(self).spec_target(),
    {
        self.payload.push(0u8);
        let mut kl = u32_to_le_bytes(key.len() as u32);
        self.payload.append(&mut kl);
        let mut vl = u32_to_le_bytes(value.len() as u32);
        self.payload.append(&mut vl);
        let mut kb = slice_to_vec(key);
        self.payload.append(&mut kb);
        let mut vb = slice_to_vec(value);
        self.payload.append(&mut vb);
        let plen = self.payload.len();
        proof {
            assert(enc_entry(key@, EntryModel::Put(value@)).len() >= 9);
            assert(9 * self.history@.len() + 9 <= plen);
        }
        self.entries = self.entries + 1;
        proof {
            let e = EntryModel::Put(value@);
            lemma_enc_entries_push(self.history@, key@, e);
            assert(self.payload@ =~= enc_entries(self.history@) + enc_entry(key@, e));
            self.history@ = self.history@.push((key@, e));
            assert(entry_lens_ok(self.history@)) by {
                assert(forall|i: int| 0 <= i < self.history@.len() - 1
                    ==> self.history@[i] == old(self).history@[i]);
            }
        }
    }

    /// Appends a tombstone entry for `key`.
    pub fn add_delete(&mut self, key: &[u8])
        requires
            old(self).wf(),
            key@.len() <= u32::MAX,
        ensures
            final(self).wf(),
            final(self).spec_entries() == old(self).spec_entries().push((key@, EntryModel::Delete)),
            final(self).spec_payload() == old(self).spec_payload() + enc_entry(
                key@,
                EntryModel::Delete,
            ),
            final(self).spec_target() == old(self).spec_target(),
    {
        self.payload.push(1u8);
        let mut kl = u32_to_le_bytes(key.len() as u32);
        self.payload.append(&mut kl);
        let mut vl = u32_to_le_bytes(0u32);
        self.payload.append(&mut vl);
        let mut kb = slice_to_vec(key);
        self.payload.append(&mut kb);
        let plen = self.payload.len();
        proof {
            assert(enc_entry(key@, EntryModel::Delete).len() >= 9);
            assert(9 * self.history@.len() + 9 <= plen);
        }
        self.entries = self.entries + 1;
        proof {
            lemma_enc_entries_push(self.history@, key@, EntryModel::Delete);
            assert(self.payload@ =~= enc_entries(self.history@) + enc_entry(
                key@,
                EntryModel::Delete,
            ));
            self.history@ = self.history@.push((key@, EntryModel::Delete));
            assert(entry_lens_ok(self.history@)) by {
                assert(forall|i: int| 0 <= i < self.history@.len() - 1
                    ==> self.history@[i] == old(self).history@[i]);
            }
        }
    }

    /// Full once the payload has reached the target and one entry exists; a
    /// single oversized entry may push a block past the target.
    pub fn is_full(&self) -> (r: bool)
        requires
            self.wf(),
        ensures
            r == (self.spec_payload().len() >= self.spec_target() && self.spec_entries().len()
                > 0),
    {
        self.payload.len() >= self.target_bytes && self.entries > 0
    }

    /// Seals the block: the payload followed by the CRC of exactly those bytes.
    pub fn encode(self) -> (out: Vec<u8>)
        requires
            self.wf(),
        ensures
            out@ == enc_block(self.spec_entries()),
            out@.len() == self.spec_payload().len() + 4,
    {
        let crc = crc32(self.payload.as_slice());
        let mut out = self.payload;
        let mut trailer = u32_to_le_bytes(crc);
        out.append(&mut trailer);
        out
    }

    /// Number of entries appended so far.
    pub fn len(&self) -> (r: usize)
        requires
            self.wf(),
        ensures
            r == self.spec_entries().len(),
    {
        self.entries
    }

    /// True before the first entry is appended.
    pub fn is_empty(&self) -> (r: bool)
        requires
            self.wf(),
        ensures
            r == (self.spec_entries().len() == 0),
    {
        self.entries == 0
    }
}

/// Reads a sealed block back: the CRC trailer must match before any entry is
/// trusted, and every entry must parse exactly.
#[verifier::loop_isolation(false)]
pub fn decode_block(bytes: &[u8]) -> (r: Result<Vec<(Vec<u8>, Entry)>, StoreError>)
    ensures
        ({
            let n = bytes@.len() as int;
            match r {
                Ok(es) => n >= 4 && spec_u32_from_le_bytes(bytes@.subrange(n - 4, n)) == crc32_of(
                    bytes@.subrange(0, n - 4),
                ) && parse_entries(bytes@.subrange(0, n - 4)) == Some(kv_view(es@)),
                Err(StoreError::Truncated) => n < 4,
                Err(StoreError::Corruption) => n >= 4 && spec_u32_from_le_bytes(
                    bytes@.subrange(n - 4, n),
                ) != crc32_of(bytes@.subrange(0, n - 4)),
                Err(StoreError::Malformed) => n >= 4 && spec_u32_from_le_bytes(
                    bytes@.subrange(n - 4, n),
                ) == crc32_of(bytes@.subrange(0, n - 4)) && parse_entries(
                    bytes@.subrange(0, n - 4),
                ) is None,
                Err(_) => false,
            }
        }),
{
    let n = bytes.len();
    if n < 4 {
        return Err(StoreError::Truncated);
    }
    let payload = slice_subrange(bytes, 0, n - 4);
    let trailer = slice_subrange(bytes, n - 4, n);
    let stored = u32_from_le_bytes(trailer);
    let calc = crc32(payload);
    if stored != calc {
        return Err(StoreError::Corruption);
    }
    let m = n - 4;
    let mut p: usize = 0;
    let mut out: Vec<(Vec<u8>, Entry)> = Vec::new();
    proof {
        assert(payload@.skip(0) =~= payload@);
        assert(kv_view(out@) =~= Seq::<(Seq<u8>, EntryModel)>::empty());
        if parse_entries(payload@) is Some {
            assert(kv_view(out@) + parse_entries(payload@)->Some_0 =~= parse_entries(
                payload@,
            )->Some_0);
        }
    }
    while p < m
        invariant
            m + 4 == n == bytes@.len(),
            payload@ == bytes@.subrange(0, m as int),
            0 <= p <= m,
            parse_entries(payload@) == (match parse_entries(payload@.skip(p as int)) {
                Some(tl) => Some(kv_view(out@) + tl),
                None => None::<Seq<(Seq<u8>, EntryModel)>>,
            }),
        decreases m - p,
    {
        let ghost s = payload@.skip(p as int);
        if m - p < 9 {
            assert(parse_entries(s) is None);
            return Err(StoreError::Malformed);
        }
        let tag = payload[p];
        let klw = u32_from_le_bytes(slice_subrange(payload, p + 1, p + 5));
        let vlw = u32_from_le_bytes(slice_subrange(payload, p + 5, p + 9));
        proof {
            assert(s[0] == payload@[p as int]);
            assert(payload@.subrange(p + 1, p + 5) =~= s.subrange(1, 5));
            assert(payload@.subrange(p + 5, p + 9) =~= s.subrange(5, 9));
        }
        let klen = klw as usize;
        let vlen = vlw as usize;
        if tag == 0u8 {
            if klen > m - p - 9 || vlen > m - p - 9 - klen {
                assert(parse_entries(s) is None);
                return Err(StoreError::Malformed);
            }
            let k = slice_to_vec(slice_subrange(payload, p + 9, p + 9 + klen));
            let v = slice_to_vec(slice_subrange(payload, p + 9 + klen, p + 9 + klen + vlen));
            proof {
                assert(payload@.subrange(p + 9, p + 9 + klen) =~= s.subrange(9, 9 + klen));
                assert(payload@.subrange(p + 9 + klen, p + 9 + klen + vlen) =~= s.subrange(
                    9 + klen,
                    9 + klen + vlen,
                ));
                assert(s.skip(9 + klen + vlen) =~= payload@.skip(p + 9 + klen + vlen));
                assert(kv_view(out@.push((k, Entry::Put(v)))) =~= kv_view(out@) + seq![
                    (k@, EntryModel::Put(v@)),
                ]);
                if parse_entries(payload@.skip(p + 9 + klen + vlen)) is Some {
                    let tl = parse_entries(payload@.skip(p + 9 + klen + vlen))->Some_0;
                    assert(parse_entries(s) == Some(seq![(k@, EntryModel::Put(v@))] + tl));
                    assert((kv_view(out@) + seq![(k@, EntryModel::Put(v@))]) + tl =~= kv_view(out@)
                        + (seq![(k@, EntryModel::Put(v@))] + tl));
                }
            }
            out.push((k, Entry::Put(v)));
            p = p + 9 + klen + vlen;
        } else if tag == 1u8 {
            if vlw != 0 || klen > m - p - 9 {
                assert(parse_entries(s) is None);
                return Err(StoreError::Malformed);
            }
            let k = slice_to_vec(slice_subrange(payload, p + 9, p + 9 + klen));
            proof {
                assert(payload@.subrange(p + 9, p + 9 + klen) =~= s.subrange(9, 9 + klen));
                assert(s.skip(9 + klen) =~= payload@.skip(p + 9 + klen));
                assert(kv_view(out@.push((k, Entry::Delete))) =~= kv_view(out@) + seq![
                    (k@, EntryModel::Delete),
                ]);
                if parse_entries(payload@.skip(p + 9 + klen)) is Some {
                    let tl = parse_entries(payload@.skip(p + 9 + klen))->Some_0;
                    assert(parse_entries(s) == Some(seq![(k@, EntryModel::Delete)] + tl));
                    assert((kv_view(out@) + seq![(k@, EntryModel::Delete)]) + tl =~= kv_view(out@)
                        + (seq![(k@, EntryModel::Delete)] + tl));
                }
            }
            out.push((k, Entry::Delete));
            p = p + 9 + klen;
        } else {
            assert(parse_entries(s) is None);
            return Err(StoreError::Malformed);
        }
    }
    proof {
        assert(payload@.skip(m as int) =~= Seq::<u8>::empty());
        assert(kv_view(out@) + Seq::<(Seq<u8>, EntryModel)>::empty() =~= kv_view(out@));
    }
    Ok(out)
}

} // verus!
