//! The mathematical model of stored data: tagged entries keyed by byte
//! strings, first-match lookup, and strict key ordering.
use vstd::prelude::*;
use crate::keys::{lex_lt, lemma_lex_lt_trans};

verus! {

/// What a layer records for one key: a value, or a tombstone that shadows
/// older values.
pub enum EntryModel {
    Put(Seq<u8>),
    Delete,
}

/// The stored form of one write: a value, or a tombstone. Tombstones are real
/// entries, not removals.
#[derive(Debug)]
pub enum Entry {
    Put(Vec<u8>),
    Delete,
}

impl View for Entry {
    type V = EntryModel;

    open spec fn view(&self) -> EntryModel {
        match self {
            Entry::Put(v) => EntryModel::Put(v@),
            Entry::Delete => EntryModel::Delete,
        }
    }
}

impl Clone for Entry {
    fn clone(&self) -> (r: Self)
        ensures
            r@ == self@,
    {
        match self {
            Entry::Put(v) => {
                let c = v.clone();
                proof {
                    assert(c@ =~= v@);
                }
                Entry::Put(c)
            }
            Entry::Delete => Entry::Delete,
        }
    }
}

/// The model of a run of key-entry pairs as stored in memory.
pub open spec fn kv_view(s: Seq<(Vec<u8>, Entry)>) -> Seq<(Seq<u8>, EntryModel)> {
    s.map(|i: int, p: (Vec<u8>, Entry)| (p.0@, p.1@))
}

/// First entry for `k` in `es`, scanning front to back.
pub open spec fn lookup_entries(es: Seq<(Seq<u8>, EntryModel)>, k: Seq<u8>) -> Option<EntryModel>
    decreases es.len(),
{
    if es.len() == 0 {
        None
    } else if es[0].0 == k {
        Some(es[0].1)
    } else {
        lookup_entries(es.skip(1), k)
    }
}

/// Keys strictly increase along `es`; in particular they are unique.
pub open spec fn entries_sorted(es: Seq<(Seq<u8>, EntryModel)>) -> bool {
    forall|i: int, j: int| 0 <= i < j < es.len() ==> lex_lt(es[i].0, es[j].0)
}

/// Lookup distributes over concatenation: the front sequence wins.
pub proof fn lemma_lookup_concat(a: Seq<(Seq<u8>, EntryModel)>, b: Seq<(Seq<u8>, EntryModel)>, k: Seq<u8>)
    ensures
        lookup_entries(a + b, k) == (match lookup_entries(a, k) {
            Some(e) => Some(e),
            None => lookup_entries(b, k),
        }),
    decreases a.len(),
{
    if a.len() == 0 {
        assert(a + b =~= b);
    } else {
        assert((a + b)[0] == a[0]);
        if a[0].0 != k {
            assert((a + b).skip(1) =~= a.skip(1) + b);
            lemma_lookup_concat(a.skip(1), b, k);
        }
    }
}

/// In a sorted run, an entry at index `i` is what lookup returns.
pub proof fn lemma_sorted_lookup_at(es: Seq<(Seq<u8>, EntryModel)>, i: int)
    requires
        entries_sorted(es),
        0 <= i < es.len(),
    ensures
        lookup_entries(es, es[i].0) == Some(es[i].1),
    decreases es.len(),
{
    if i == 0 {
    } else {
        assert(lex_lt(es[0].0, es[i].0));
        assert(es[0].0 != es[i].0) by {
            crate::keys::lemma_lex_trichotomy(es[0].0, es[i].0);
        }
        assert(entries_sorted(es.skip(1))) by {
            assert forall|p: int, q: int| 0 <= p < q < es.skip(1).len() implies lex_lt(
                es.skip(1)[p].0,
                es.skip(1)[q].0,
            ) by {
                assert(es.skip(1)[p] == es[p + 1]);
                assert(es.skip(1)[q] == es[q + 1]);
            }
        }
        assert(es.skip(1)[i - 1] == es[i]);
        lemma_sorted_lookup_at(es.skip(1), i - 1);
    }
}

/// If no entry carries `k`, lookup misses.
pub proof fn lemma_lookup_absent(es: Seq<(Seq<u8>, EntryModel)>, k: Seq<u8>)
    requires
        forall|i: int| 0 <= i < es.len() ==> es[i].0 != k,
    ensures
        lookup_entries(es, k) == None::<EntryModel>,
    decreases es.len(),
{
    if es.len() > 0 {
        assert(forall|i: int| 0 <= i < es.skip(1).len() ==> es.skip(1)[i] == es[i + 1]);
        lemma_lookup_absent(es.skip(1), k);
    }
}

/// The first entry carrying `k` is what lookup returns, sorted or not.
pub proof fn lemma_lookup_first(es: Seq<(Seq<u8>, EntryModel)>, k: Seq<u8>, j: int)
    requires
        0 <= j < es.len(),
        es[j].0 == k,
        forall|t: int| 0 <= t < j ==> (#[trigger] es[t]).0 != k,
    ensures
        lookup_entries(es, k) == Some(es[j].1),
    decreases es.len(),
{
    if j > 0 {
        assert(es[0].0 != k);
        assert(es.skip(1)[j - 1] == es[j]);
        assert(forall|t: int| 0 <= t < j - 1 ==> es.skip(1)[t] == es[t + 1]);
        lemma_lookup_first(es.skip(1), k, j - 1);
    }
}

/// If lookup hits, some entry carries `k`.
pub proof fn lemma_lookup_present(es: Seq<(Seq<u8>, EntryModel)>, k: Seq<u8>)
    requires
        lookup_entries(es, k) is Some,
    ensures
        exists|i: int| 0 <= i < es.len() && es[i].0 == k && es[i].1 == lookup_entries(es, k)->Some_0,
    decreases es.len(),
{
    if es.len() > 0 && es[0].0 != k {
        lemma_lookup_present(es.skip(1), k);
        let i = choose|i: int| 0 <= i < es.skip(1).len() && es.skip(1)[i].0 == k
            && es.skip(1)[i].1 == lookup_entries(es.skip(1), k)->Some_0;
        assert(es[i + 1] == es.skip(1)[i]);
    }
}

} // verus!
