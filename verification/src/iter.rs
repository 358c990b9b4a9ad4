//! Ordered, seekable traversal of one table's key-value pairs: the ground
//! for range scans and compaction. Blocks are decoded when the cursor is
//! built; advancing it never touches the file again.
use vstd::prelude::*;
use crate::errors::StoreError;
use crate::keys::{key_le, lex_le};
use crate::model::{Entry, EntryModel};
use crate::reader::SsTableReader;
use crate::table::{block_at, blocks_entries, table_entries, table_index, table_wf};

verus! {

/// `start` admits `k`: no bound, or a bound at or below `k`.
pub open spec fn from_start(start: Option<Seq<u8>>, k: Seq<u8>) -> bool {
    match start {
        None => true,
        Some(s) => lex_le(s, k),
    }
}

/// The key-value pairs a traversal yields: every `Put` entry of `es` whose
/// key is admitted by `start`, in order. Tombstones yield nothing.
pub open spec fn puts_from(es: Seq<(Seq<u8>, EntryModel)>, start: Option<Seq<u8>>) -> Seq<
    (Seq<u8>, Seq<u8>),
>
    decreases es.len(),
{
    if es.len() == 0 {
        Seq::empty()
    } else {
        let rest = puts_from(es.skip(1), start);
        if from_start(start, es[0].0) && es[0].1 is Put {
            seq![(es[0].0, es[0].1->Put_0)] + rest
        } else {
            rest
        }
    }
}

/// Traversal distributes over concatenation of entry runs.
pub proof fn lemma_puts_from_concat(
    a: Seq<(Seq<u8>, EntryModel)>,
    b: Seq<(Seq<u8>, EntryModel)>,
    start: Option<Seq<u8>>,
)
    ensures
        puts_from(a + b, start) == puts_from(a, start) + puts_from(b, start),
    decreases a.len(),
{
    if a.len() == 0 {
        assert(a + b =~= b);
        assert(puts_from(a, start) + puts_from(b, start) =~= puts_from(b, start));
    } else {
        assert((a + b)[0] == a[0]);
        assert((a + b).skip(1) =~= a.skip(1) + b);
        lemma_puts_from_concat(a.skip(1), b, start);
        if from_start(start, a[0].0) && a[0].1 is Put {
            assert(seq![(a[0].0, a[0].1->Put_0)] + (puts_from(a.skip(1), start) + puts_from(
                b,
                start,
            )) =~= (seq![(a[0].0, a[0].1->Put_0)] + puts_from(a.skip(1), start)) + puts_from(
                b,
                start,
            ));
        }
    }
}

/// A cursor over one table's admitted key-value pairs, in ascending order.
pub struct SsTableIter {
    items: Vec<(Vec<u8>, Vec<u8>)>,
    pos: usize,
}

impl SsTableIter {
    /// The pairs not yet yielded, front first.
    pub closed spec fn spec_remaining(self) -> Seq<(Seq<u8>, Seq<u8>)> {
        self.items@.map(|i: int, p: (Vec<u8>, Vec<u8>)| (p.0@, p.1@)).skip(self.pos as int)
    }

    /// The cursor never stands past the end.
    #[verifier::type_invariant]
    closed spec fn inv(self) -> bool {
        self.pos <= self.items@.len()
    }

    /// Builds a cursor over `reader`'s table, seeked to `start` if one is
    /// given: it will yield every admitted key-value pair in ascending order.
    /// On a fully well-formed table this cannot fail.
    #[verifier::loop_isolation(false)]
    pub fn new_seek(reader: &SsTableReader, start: Option<&[u8]>) -> (r: Result<
        SsTableIter,
        StoreError,
    >)
        requires
            reader.wf(),
        ensures
            table_wf(reader.spec_file()) ==> r is Ok,
            r matches Ok(it) ==> it.spec_remaining() == puts_from(
                table_entries(reader.spec_file()),
                match start {
                    Some(s) => Some(s@),
                    None => None,
                },
            ),
            r is Err ==> !table_wf(reader.spec_file()),
    {
        let ghost fileg = reader.spec_file();
        let ghost m = table_index(fileg);
        let ghost sv: Option<Seq<u8>> = match start {
            Some(s) => Some(s@),
            None => None,
        };
        let mut items: Vec<(Vec<u8>, Vec<u8>)> = Vec::new();
        let nblocks = reader.block_count();
        let mut j: usize = 0;
        proof {
            assert(m.take(0) =~= Seq::<(Seq<u8>, crate::format::BlockHandle)>::empty());
            assert(items@.map(|i: int, p: (Vec<u8>, Vec<u8>)| (p.0@, p.1@)) =~= puts_from(
                blocks_entries(fileg, m.take(0)),
                sv,
            ));
        }
        while j < nblocks
            invariant
                0 <= j <= nblocks == m.len(),
                items@.map(|i: int, p: (Vec<u8>, Vec<u8>)| (p.0@, p.1@)) == puts_from(
                    blocks_entries(fileg, m.take(j as int)),
                    sv,
                ),
            decreases nblocks - j,
        {
            let es = match reader.read_block(j) {
                Ok(es) => es,
                Err(e) => {
                    return Err(e);
                }
            };
            let ghost bes = crate::model::kv_view(es@);
            let cnt = es.len();
            let ghost before = items@;
            let mut t: usize = 0;
            while t < cnt
                invariant
                    0 <= t <= cnt == bes.len(),
                    bes == crate::model::kv_view(es@),
                    items@.map(|i: int, p: (Vec<u8>, Vec<u8>)| (p.0@, p.1@)) == before.map(
                        |i: int, p: (Vec<u8>, Vec<u8>)| (p.0@, p.1@),
                    ) + puts_from(bes.take(t as int), sv),
                decreases cnt - t,
            {
                proof {
                    assert(bes[t as int] == (es@[t as int].0@, es@[t as int].1@));
                    assert(bes.take(t + 1) =~= bes.take(t as int) + seq![bes[t as int]]);
                    lemma_puts_from_concat(bes.take(t as int), seq![bes[t as int]], sv);
                    assert(seq![bes[t as int]].skip(1) =~= Seq::<(Seq<u8>, EntryModel)>::empty());
                }
                let admit_key = match start {
                    Some(s) => key_le(s, es[t].0.as_slice()),
                    None => true,
                };
                if admit_key {
                    match &es[t].1 {
                        Entry::Put(v) => {
                            let kc = es[t].0.clone();
                            let vc = v.clone();
                            proof {
                                assert(kc@ =~= es@[t as int].0@);
                                assert(vc@ =~= v@);
                                assert(es@[t as int].1@ == EntryModel::Put(v@));
                                assert(from_start(sv, bes[t as int].0));
                                assert(puts_from(seq![bes[t as int]], sv) =~= seq![
                                    (bes[t as int].0, v@),
                                ]);
                            }
                            let ghost pre_map = items@.map(
                                |i: int, p: (Vec<u8>, Vec<u8>)| (p.0@, p.1@),
                            );
                            items.push((kc, vc));
                            proof {
                                assert(items@.map(|i: int, p: (Vec<u8>, Vec<u8>)| (p.0@, p.1@))
                                    =~= pre_map + seq![(bes[t as int].0, v@)]);
                                assert(pre_map + seq![(bes[t as int].0, v@)] =~= before.map(
                                    |i: int, p: (Vec<u8>, Vec<u8>)| (p.0@, p.1@),
                                ) + puts_from(bes.take(t + 1), sv));
                            }
                        }
                        Entry::Delete => {
                            proof {
                                assert(puts_from(bes.take(t + 1), sv) =~= puts_from(
                                    bes.take(t as int),
                                    sv,
                                ));
                            }
                        }
                    }
                } else {
                    proof {
                        assert(puts_from(bes.take(t + 1), sv) =~= puts_from(
                            bes.take(t as int),
                            sv,
                        ));
                    }
                }
                t = t + 1;
            }
            proof {
                assert(bes.take(cnt as int) =~= bes);
                assert(block_at(fileg, m[j as int].1) == Some(bes));
                crate::table::lemma_blocks_entries_push(fileg, m.take(j as int), m[j as int]);
                assert(m.take(j as int).push(m[j as int]) =~= m.take(j + 1));
                lemma_puts_from_concat(blocks_entries(fileg, m.take(j as int)), bes, sv);
            }
            j = j + 1;
        }
        proof {
            assert(m.take(nblocks as int) =~= m);
        }
        let it = SsTableIter { items, pos: 0 };
        proof {
            assert(it.spec_remaining() =~= it.items@.map(
                |i: int, p: (Vec<u8>, Vec<u8>)| (p.0@, p.1@),
            ));
        }
        Ok(it)
    }

    /// Yields the next key-value pair, or nothing when the traversal is done.
    pub fn next(&mut self) -> (r: Option<(Vec<u8>, Vec<u8>)>)
        ensures
            match r {
                Some(p) => old(self).spec_remaining().len() > 0 && (p.0@, p.1@) == old(
                    self,
                ).spec_remaining()[0] && final(self).spec_remaining() == old(
                    self,
                ).spec_remaining().skip(1),
                None => old(self).spec_remaining().len() == 0 && final(self).spec_remaining()
                    == old(self).spec_remaining(),
            },
    {
        proof {
            use_type_invariant(&*self);
        }
        if self.pos < self.items.len() {
            let kc = self.items[self.pos].0.clone();
            let vc = self.items[self.pos].1.clone();
            proof {
                assert(kc@ =~= self.items@[self.pos as int].0@);
                assert(vc@ =~= self.items@[self.pos as int].1@);
            }
            self.pos = self.pos + 1;
            proof {
                assert(final(self).spec_remaining() =~= old(self).spec_remaining().skip(1));
            }
            Some((kc, vc))
        } else {
            None
        }
    }
}

} // verus!
