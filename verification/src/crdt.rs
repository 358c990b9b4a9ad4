//! A grow-only set of byte strings with a little-endian wire encoding and a
//! union merge: the primitive an anti-entropy replication layer builds on.
//! It stands beside the engine and does not reach into it.
use vstd::prelude::*;
use vstd::bytes::{
    lemma_auto_spec_u32_to_from_le_bytes, spec_u32_from_le_bytes, spec_u32_to_le_bytes,
    u32_from_le_bytes, u32_to_le_bytes,
};
use vstd::slice::{slice_subrange, slice_to_vec};
use crate::keys::{key_eq, key_le, lemma_lex_le_or_lt, lemma_lex_lt_trans, lemma_lex_trichotomy, lex_le, lex_lt};

verus! {

/// The wire form of a run of elements: little-endian length prefix, then the
/// bytes, in order. Lengths wider than the 32-bit prefix are written
/// truncated.
pub open spec fn gset_enc_elems(es: Seq<Seq<u8>>) -> Seq<u8>
    decreases es.len(),
{
    if es.len() == 0 {
        Seq::empty()
    } else {
        spec_u32_to_le_bytes(es[0].len() as u32) + es[0] + gset_enc_elems(es.skip(1))
    }
}

/// The wire form of a whole set: little-endian count, then its elements.
pub open spec fn gset_enc(es: Seq<Seq<u8>>) -> Seq<u8> {
    spec_u32_to_le_bytes(es.len() as u32) + gset_enc_elems(es)
}

/// The elements a lenient decoder takes from `b`: up to `n` length-prefixed
/// items, stopping early at the first short read.
pub open spec fn gset_parse_elems(b: Seq<u8>, n: nat) -> Seq<Seq<u8>>
    decreases n,
{
    if n == 0 || b.len() < 4 {
        Seq::empty()
    } else {
        let l = spec_u32_from_le_bytes(b.subrange(0, 4)) as int;
        if 4 + l <= b.len() {
            seq![b.subrange(4, 4 + l)] + gset_parse_elems(b.skip(4 + l), (n - 1) as nat)
        } else {
            Seq::empty()
        }
    }
}

/// What decoding yields: nothing for fewer than four bytes, else the items
/// the recorded count promises, as far as the data reaches.
pub open spec fn gset_parse(b: Seq<u8>) -> Seq<Seq<u8>> {
    if b.len() < 4 {
        Seq::empty()
    } else {
        gset_parse_elems(b.skip(4), spec_u32_from_le_bytes(b.subrange(0, 4)) as nat)
    }
}

/// Count and element lengths all fit the 32-bit words of the wire form.
pub open spec fn gset_lens_ok(es: Seq<Seq<u8>>) -> bool {
    es.len() <= u32::MAX && forall|i: int| 0 <= i < es.len() ==> #[trigger] es[i].len()
        <= u32::MAX
}

/// Byte strings strictly increase along the sequence: sorted, no duplicates.
pub open spec fn elems_sorted(es: Seq<Seq<u8>>) -> bool {
    forall|i: int, j: int| 0 <= i < j < es.len() ==> lex_lt(#[trigger] es[i], #[trigger] es[j])
}

/// Decoding inverts encoding for element runs whose lengths fit the format.
pub proof fn lemma_gset_parse_enc_elems(es: Seq<Seq<u8>>)
    requires
        forall|i: int| 0 <= i < es.len() ==> #[trigger] es[i].len() <= u32::MAX,
    ensures
        gset_parse_elems(gset_enc_elems(es), es.len()) == es,
    decreases es.len(),
{
    lemma_auto_spec_u32_to_from_le_bytes();
    if es.len() == 0 {
    } else {
        let head = spec_u32_to_le_bytes(es[0].len() as u32) + es[0];
        let rest = gset_enc_elems(es.skip(1));
        let b = gset_enc_elems(es);
        assert(b == head + rest);
        assert(b.subrange(0, 4) =~= spec_u32_to_le_bytes(es[0].len() as u32));
        let l = es[0].len() as int;
        assert(b.subrange(4, 4 + l) =~= es[0]);
        assert(b.skip(4 + l) =~= rest);
        assert(forall|i: int| 0 <= i < es.skip(1).len() ==> es.skip(1)[i] == es[i + 1]);
        lemma_gset_parse_enc_elems(es.skip(1));
        assert(seq![es[0]] + es.skip(1) =~= es);
    }
}

/// Decoding inverts encoding for whole sets within the format's bounds.
pub proof fn lemma_gset_wire_round_trip(es: Seq<Seq<u8>>)
    requires
        gset_lens_ok(es),
    ensures
        gset_parse(gset_enc(es)) == es,
{
    lemma_auto_spec_u32_to_from_le_bytes();
    let b = gset_enc(es);
    assert(b.subrange(0, 4) =~= spec_u32_to_le_bytes(es.len() as u32));
    assert(b.skip(4) =~= gset_enc_elems(es));
    lemma_gset_parse_enc_elems(es);
}

/// Two sorted duplicate-free sequences with the same members are the same
/// sequence; it makes membership facts carry over to the stored order.
pub proof fn lemma_sorted_same_members(a: Seq<Seq<u8>>, b: Seq<Seq<u8>>)
    requires
        elems_sorted(a),
        elems_sorted(b),
        forall|x: Seq<u8>| a.contains(x) == b.contains(x),
    ensures
        a == b,
    decreases a.len(),
{
    if a.len() == 0 {
        if b.len() > 0 {
            assert(b.contains(b[0]));
        }
        assert(a =~= b);
    } else {
        assert(a.contains(a[0]));
        assert(b.len() > 0);
        assert(a[0] == b[0]) by {
            assert(b.contains(a[0]));
            let j = choose|j: int| 0 <= j < b.len() && b[j] == a[0];
            assert(b.contains(b[0]));
            assert(a.contains(b[0]));
            let i = choose|i: int| 0 <= i < a.len() && a[i] == b[0];
            if j > 0 {
                assert(lex_lt(b[0], b[j]));
                if i > 0 {
                    assert(lex_lt(a[0], a[i]));
                    lemma_lex_lt_trans(a[0], a[i], a[0]);
                    lemma_lex_trichotomy(a[0], a[0]);
                } else {
                    lemma_lex_trichotomy(b[0], b[j]);
                }
            }
        }
        assert forall|x: Seq<u8>| a.skip(1).contains(x) == b.skip(1).contains(x) by {
            if a.skip(1).contains(x) {
                let i = choose|i: int| 0 <= i < a.skip(1).len() && a.skip(1)[i] == x;
                assert(a[i + 1] == x);
                assert(lex_lt(a[0], x));
                lemma_lex_trichotomy(a[0], x);
                assert(b.contains(x));
                let j = choose|j: int| 0 <= j < b.len() && b[j] == x;
                assert(j != 0);
                assert(b.skip(1)[j - 1] == x);
                assert(b.skip(1).contains(x));
            }
            if b.skip(1).contains(x) {
                let j = choose|j: int| 0 <= j < b.skip(1).len() && b.skip(1)[j] == x;
                assert(b[j + 1] == x);
                assert(lex_lt(b[0], x));
                lemma_lex_trichotomy(b[0], x);
                assert(a.contains(x));
                let i = choose|i: int| 0 <= i < a.len() && a[i] == x;
                assert(i != 0);
                assert(a.skip(1)[i - 1] == x);
                assert(a.skip(1).contains(x));
            }
        }
        assert(elems_sorted(a.skip(1))) by {
            assert(forall|i: int| 0 <= i < a.skip(1).len() ==> a.skip(1)[i] == a[i + 1]);
        }
        assert(elems_sorted(b.skip(1))) by {
            assert(forall|i: int| 0 <= i < b.skip(1).len() ==> b.skip(1)[i] == b[i + 1]);
        }
        lemma_sorted_same_members(a.skip(1), b.skip(1));
        assert(a =~= b) by {
            assert forall|i: int| 0 <= i < a.len() implies a[i] == b[i] by {
                if i > 0 {
                    assert(a[i] == a.skip(1)[i - 1]);
                    assert(b[i] == b.skip(1)[i - 1]);
                }
            }
        }
    }
}

/// A state-based replicated datatype: a wire form and a commutative merge.
pub trait CRDT: Sized {
    /// Encodes the state for shipping to a peer.
    fn to_bytes(&self) -> Vec<u8>;

    /// Rebuilds a state from a peer's bytes; lenient about truncation.
    fn from_bytes(bytes: &[u8]) -> Self;

    /// Folds a peer's state into this one.
    fn merge(&mut self, other: &Self);
}

/// A grow-only set: elements can be added and merged in, never removed.
/// Always held sorted and deduplicated.
#[derive(Debug)]
pub struct GSet {
    elems: Vec<Vec<u8>>,
}

impl GSet {
    /// The elements in ascending order.
    pub closed spec fn spec_elems(self) -> Seq<Seq<u8>> {
        self.elems@.map(|i: int, e: Vec<u8>| e@)
    }

    /// Membership of `x`.
    pub open spec fn spec_contains(self, x: Seq<u8>) -> bool {
        self.spec_elems().contains(x)
    }

    /// Elements strictly increase: sorted with no duplicates.
    #[verifier::type_invariant]
    closed spec fn inv(self) -> bool {
        elems_sorted(self.spec_elems())
    }

    /// Opens an empty set.
    pub fn new() -> (r: Self)
        ensures
            r.spec_elems() == Seq::<Seq<u8>>::empty(),
            forall|x: Seq<u8>| !r.spec_contains(x),
            elems_sorted(r.spec_elems()),
    {
        let r = Self { elems: Vec::new() };
        proof {
            assert(r.spec_elems() =~= Seq::<Seq<u8>>::empty());
        }
        r
    }

    /// Position of the first element at or above `key`.
    #[verifier::loop_isolation(false)]
    fn seek(&self, key: &[u8]) -> (i: usize)
        ensures
            0 <= i <= self.spec_elems().len(),
            forall|j: int| 0 <= j < i ==> lex_lt(#[trigger] self.spec_elems()[j], key@),
            i < self.spec_elems().len() ==> lex_le(key@, self.spec_elems()[i as int]),
    {
        proof {
            use_type_invariant(&*self);
        }
        let ghost m = self.spec_elems();
        let n = self.elems.len();
        let mut lo: usize = 0;
        let mut hi: usize = n;
        while lo < hi
            invariant
                0 <= lo <= hi <= n,
                forall|j: int| 0 <= j < lo ==> lex_lt(#[trigger] m[j], key@),
                forall|j: int| hi <= j < n ==> lex_le(key@, #[trigger] m[j]),
            decreases hi - lo,
        {
            let mid = lo + (hi - lo) / 2;
            let e = &self.elems[mid];
            assert(e@ == m[mid as int]);
            if key_le(key, e.as_slice()) {
                proof {
                    assert forall|j: int| mid <= j < n implies lex_le(key@, #[trigger] m[j]) by {
                        if j > mid {
                            assert(lex_lt(m[mid as int], m[j]));
                            if key@ != m[mid as int] {
                                lemma_lex_lt_trans(key@, m[mid as int], m[j]);
                            }
                        }
                    }
                }
                hi = mid;
            } else {
                proof {
                    lemma_lex_le_or_lt(key@, m[mid as int]);
                    assert forall|j: int| 0 <= j <= mid implies lex_lt(#[trigger] m[j], key@) by {
                        if j < mid {
                            assert(lex_lt(m[j], m[mid as int]));
                            lemma_lex_lt_trans(m[j], m[mid as int], key@);
                        }
                    }
                }
                lo = mid + 1;
            }
        }
        lo
    }

    /// Whether `k` has been added.
    pub fn contains(&self, k: &[u8]) -> (r: bool)
        ensures
            r == self.spec_contains(k@),
    {
        proof {
            use_type_invariant(&*self);
        }
        let ghost m = self.spec_elems();
        let n = self.elems.len();
        let i = self.seek(k);
        if i < n && key_eq(self.elems[i].as_slice(), k) {
            assert(m[i as int] == k@);
            true
        } else {
            proof {
                assert forall|j: int| 0 <= j < m.len() implies m[j] != k@ by {
                    lemma_lex_trichotomy(m[j], k@);
                    if j >= i && i < n && j > i {
                        assert(lex_le(k@, m[i as int]));
                        assert(lex_lt(m[i as int], m[j]));
                        crate::keys::lemma_lex_le_lt_trans(k@, m[i as int], m[j]);
                    }
                }
            }
            false
        }
    }

    /// Adds `k`: a new element grows the set by one, a known one changes
    /// nothing.
    pub fn insert(&mut self, k: Vec<u8>)
        ensures
            forall|x: Seq<u8>| final(self).spec_contains(x) == (old(self).spec_contains(x) || x
                == k@),
            old(self).spec_contains(k@) ==> *final(self) == *old(self),
            !old(self).spec_contains(k@) ==> final(self).spec_elems().len() == old(
                self,
            ).spec_elems().len() + 1,
            elems_sorted(final(self).spec_elems()),
    {
        proof {
            use_type_invariant(&*self);
        }
        let ghost m = self.spec_elems();
        let n = self.elems.len();
        let i = self.seek(k.as_slice());
        if i < n && key_eq(self.elems[i].as_slice(), k.as_slice()) {
            proof {
                assert(m[i as int] == k@);
                assert forall|x: Seq<u8>| self.spec_contains(x) == (old(self).spec_contains(x) || x
                    == k@) by {}
            }
        } else {
            proof {
                assert forall|j: int| 0 <= j < m.len() implies m[j] != k@ by {
                    lemma_lex_trichotomy(m[j], k@);
                    if j >= i && i < n && j > i {
                        assert(lex_le(k@, m[i as int]));
                        assert(lex_lt(m[i as int], m[j]));
                        crate::keys::lemma_lex_le_lt_trans(k@, m[i as int], m[j]);
                    }
                }
                if old(self).spec_contains(k@) {
                    let j = choose|j: int| 0 <= j < m.len() && m[j] == k@;
                    assert(false);
                }
            }
            let mut held: Vec<Vec<u8>> = Vec::new();
            core::mem::swap(&mut self.elems, &mut held);
            let ghost held0 = held@;
            held.insert(i, k);
            proof {
                held0.insert_ensures(i as int, k);
                let m2 = held@.map(|j: int, e: Vec<u8>| e@);
                assert forall|j: int| 0 <= j < m2.len() implies #[trigger] m2[j] == (if j < i {
                    m[j]
                } else if j == i {
                    k@
                } else {
                    m[j - 1]
                }) by {
                    if j < i {
                        assert(held@[j] == held0[j]);
                    } else if j > i {
                        assert(held@[j] == held0[j - 1]);
                    }
                }
                assert forall|p: int, q: int| 0 <= p < q < m2.len() implies lex_lt(
                    #[trigger] m2[p],
                    #[trigger] m2[q],
                ) by {
                    if q < i {
                        assert(lex_lt(m[p], m[q]));
                    } else if q == i {
                        assert(lex_lt(m[p], k@));
                    } else if p > i {
                        assert(lex_lt(m[p - 1], m[q - 1]));
                    } else if p == i {
                        assert(lex_le(k@, m[i as int]));
                        assert(k@ != m[i as int]);
                        if i < q - 1 {
                            assert(lex_lt(m[i as int], m[q - 1]));
                            crate::keys::lemma_lex_le_lt_trans(k@, m[i as int], m[q - 1]);
                        }
                    } else {
                        assert(lex_lt(m[p], k@));
                        if q - 1 > i {
                            assert(lex_lt(m[p], m[q - 1]));
                        }
                    }
                }
            }
            self.elems = held;
            proof {
                let m2 = self.spec_elems();
                assert forall|x: Seq<u8>| self.spec_contains(x) == (old(self).spec_contains(x) || x
                    == k@) by {
                    if x == k@ {
                        assert(m2[i as int] == x);
                    } else {
                        if old(self).spec_contains(x) {
                            let j = choose|j: int| 0 <= j < m.len() && m[j] == x;
                            if j < i {
                                assert(m2[j] == x);
                            } else {
                                assert(m2[j + 1] == x);
                            }
                        }
                        if self.spec_contains(x) {
                            let j = choose|j: int| 0 <= j < m2.len() && m2[j] == x;
                            if j < i {
                                assert(m[j] == x);
                            } else if j > i {
                                assert(m[j - 1] == x);
                            }
                        }
                    }
                }
            }
        }
    }

    /// Number of distinct elements.
    pub fn len(&self) -> (r: usize)
        ensures
            r == self.spec_elems().len(),
    {
        self.elems.len()
    }

    /// A borrowed walk over the elements, in strictly increasing order.
    pub fn iter(&self) -> (r: &Vec<Vec<u8>>)
        ensures
            r@.map(|i: int, e: Vec<u8>| e@) == self.spec_elems(),
            forall|i: int, j: int| 0 <= i < j < r@.len() ==> lex_lt(
                #[trigger] r@[i]@,
                #[trigger] r@[j]@,
            ),
    {
        proof {
            use_type_invariant(&*self);
            assert forall|i: int, j: int| 0 <= i < j < self.elems@.len() implies lex_lt(
                #[trigger] self.elems@[i]@,
                #[trigger] self.elems@[j]@,
            ) by {
                assert(self.spec_elems()[i] == self.elems@[i]@);
                assert(self.spec_elems()[j] == self.elems@[j]@);
            }
        }
        &self.elems
    }

    /// The elements, copied out in strictly increasing order.
    pub fn elements(&self) -> (r: Vec<Vec<u8>>)
        ensures
            r@.map(|i: int, e: Vec<u8>| e@) == self.spec_elems(),
            forall|i: int, j: int| 0 <= i < j < r@.len() ==> lex_lt(
                #[trigger] r@[i]@,
                #[trigger] r@[j]@,
            ),
    {
        proof {
            use_type_invariant(&*self);
        }
        let mut out: Vec<Vec<u8>> = Vec::new();
        let n = self.elems.len();
        let mut i: usize = 0;
        while i < n
            invariant
                0 <= i <= n == self.elems@.len(),
                out@.len() == i,
                forall|j: int| 0 <= j < i ==> #[trigger] out@[j]@ == self.spec_elems()[j],
            decreases n - i,
        {
            let c = self.elems[i].clone();
            proof {
                assert(c@ =~= self.elems@[i as int]@);
            }
            out.push(c);
            i = i + 1;
        }
        proof {
            assert(out@.map(|i: int, e: Vec<u8>| e@) =~= self.spec_elems());
        }
        out
    }
}

impl CRDT for GSet {
    /// The wire form: little-endian count, then each element with a
    /// little-endian length prefix, in ascending order.
    #[verifier::loop_isolation(false)]
    fn to_bytes(&self) -> (r: Vec<u8>)
        ensures
            r@ == gset_enc(self.spec_elems()),
    {
        let ghost m = self.spec_elems();
        let n = self.elems.len();
        let mut out = u32_to_le_bytes(#[verifier::truncate] (n as u32));
        let ghost head = out@;
        proof {
            assert(m.take(0) =~= Seq::<Seq<u8>>::empty());
            assert(out@ =~= head + gset_enc_elems(m.take(0)));
        }
        let mut i: usize = 0;
        while i < n
            invariant
                0 <= i <= n == m.len(),
                out@ == head + gset_enc_elems(m.take(i as int)),
            decreases n - i,
        {
            let e = &self.elems[i];
            let mut lw = u32_to_le_bytes(#[verifier::truncate] (e.len() as u32));
            out.append(&mut lw);
            let mut eb = slice_to_vec(e.as_slice());
            out.append(&mut eb);
            proof {
                lemma_gset_enc_elems_push(m.take(i as int), m[i as int]);
                assert(m.take(i as int).push(m[i as int]) =~= m.take(i + 1));
                assert(out@ =~= head + gset_enc_elems(m.take(i + 1)));
            }
            i = i + 1;
        }
        proof {
            assert(m.take(n as int) =~= m);
            assert(out@ =~= gset_enc(m));
        }
        out
    }

    /// Rebuilds a set from a peer's bytes: reads as many promised elements
    /// as the data carries, then holds them sorted and deduplicated.
    #[verifier::loop_isolation(false)]
    fn from_bytes(bytes: &[u8]) -> (r: Self)
        ensures
            forall|x: Seq<u8>| r.spec_contains(x) == gset_parse(bytes@).contains(x),
            elems_sorted(r.spec_elems()),
    {
        let mut out = GSet::new();
        let n = bytes.len();
        if n < 4 {
            proof {
                assert(gset_parse(bytes@) =~= Seq::<Seq<u8>>::empty());
                use_type_invariant(&out);
            }
            return out;
        }
        let cnt = u32_from_le_bytes(slice_subrange(bytes, 0, 4));
        let mut p: usize = 4;
        let mut i: u32 = 0;
        let ghost total = gset_parse(bytes@);
        proof {
            assert(bytes@.subrange(0, 4) =~= bytes@.subrange(0, 4));
            assert(total == gset_parse_elems(bytes@.skip(4), cnt as nat));
        }
        while i < cnt
            invariant
                4 <= p <= n == bytes@.len(),
                0 <= i <= cnt,
                total == gset_parse(bytes@),
                total == gset_parse_elems(bytes@.skip(4), cnt as nat),
                ({
                    let tl = gset_parse_elems(bytes@.skip(p as int), (cnt - i) as nat);
                    forall|x: Seq<u8>| total.contains(x) == (out.spec_contains(x) || tl.contains(
                        x,
                    ))
                }),
                ({
                    let tl = gset_parse_elems(bytes@.skip(p as int), (cnt - i) as nat);
                    forall|x: Seq<u8>| out.spec_contains(x) ==> total.contains(x)
                }),
            decreases cnt - i,
        {
            let ghost s = bytes@.skip(p as int);
            let ghost tl = gset_parse_elems(s, (cnt - i) as nat);
            if n - p < 4 {
                proof {
                    assert(tl =~= Seq::<Seq<u8>>::empty());
                    use_type_invariant(&out);
                }
                return out;
            }
            let l32 = u32_from_le_bytes(slice_subrange(bytes, p, p + 4));
            proof {
                assert(bytes@.subrange(p as int, p + 4) =~= s.subrange(0, 4));
            }
            let l = l32 as usize;
            if l > n - p - 4 {
                proof {
                    assert(tl =~= Seq::<Seq<u8>>::empty());
                    use_type_invariant(&out);
                }
                return out;
            }
            let e = slice_to_vec(slice_subrange(bytes, p + 4, p + 4 + l));
            proof {
                assert(bytes@.subrange(p + 4, p + 4 + l) =~= s.subrange(4, 4 + l));
                assert(s.skip(4 + l) =~= bytes@.skip(p + 4 + l));
                assert(tl == seq![s.subrange(4, 4 + l)] + gset_parse_elems(
                    bytes@.skip(p + 4 + l),
                    (cnt - i - 1) as nat,
                ));
                assert(tl[0] == e@);
            }
            let ghost eview = e@;
            out.insert(e);
            p = p + 4 + l;
            i = i + 1;
            proof {
                let tl2 = gset_parse_elems(bytes@.skip(p as int), (cnt - i) as nat);
                assert forall|x: Seq<u8>| #[trigger] tl.contains(x) == (x == eview || tl2.contains(
                    x,
                )) by {
                    if tl.contains(x) {
                        let j = choose|j: int| 0 <= j < tl.len() && tl[j] == x;
                        if j > 0 {
                            assert(tl2[j - 1] == x);
                        }
                    }
                    if tl2.contains(x) {
                        let j = choose|j: int| 0 <= j < tl2.len() && tl2[j] == x;
                        assert(tl[j + 1] == x);
                    }
                    if x == eview {
                        assert(tl[0] == x);
                    }
                }
            }
        }
        proof {
            assert(gset_parse_elems(bytes@.skip(p as int), 0nat) =~= Seq::<Seq<u8>>::empty());
            use_type_invariant(&out);
        }
        out
    }

    /// Folds a peer's set in: afterwards this set holds exactly the union,
    /// still sorted and deduplicated.
    #[verifier::loop_isolation(false)]
    fn merge(&mut self, other: &Self)
        ensures
            forall|x: Seq<u8>| final(self).spec_contains(x) == (old(self).spec_contains(x)
                || other.spec_contains(x)),
            elems_sorted(final(self).spec_elems()),
    {
        let n = other.elems.len();
        let ghost om = other.spec_elems();
        let mut i: usize = 0;
        while i < n
            invariant
                0 <= i <= n == om.len(),
                forall|x: Seq<u8>| self.spec_contains(x) == (old(self).spec_contains(x)
                    || om.take(i as int).contains(x)),
            decreases n - i,
        {
            let e = other.elems[i].clone();
            proof {
                assert(e@ =~= om[i as int]);
            }
            self.insert(e);
            i = i + 1;
            proof {
                let ta = om.take(i as int);
                let tb = om.take(i - 1);
                assert forall|x: Seq<u8>| ta.contains(x) == (tb.contains(x) || x == om[i - 1]) by {
                    if ta.contains(x) {
                        let j = choose|j: int| 0 <= j < ta.len() && ta[j] == x;
                        if j < i - 1 {
                            assert(tb[j] == x);
                        }
                    }
                    if tb.contains(x) {
                        let j = choose|j: int| 0 <= j < tb.len() && tb[j] == x;
                        assert(ta[j] == x);
                    }
                    if x == om[i - 1] {
                        assert(ta[i - 1] == x);
                    }
                }
            }
        }
        proof {
            assert(om.take(n as int) =~= om);
            use_type_invariant(&*self);
        }
    }
}

/// Appending one element extends its wire form at the tail.
proof fn lemma_gset_enc_elems_push(es: Seq<Seq<u8>>, e: Seq<u8>)
    ensures
        gset_enc_elems(es.push(e)) == gset_enc_elems(es) + (spec_u32_to_le_bytes(e.len() as u32)
            + e),
    decreases es.len(),
{
    let w = es.push(e);
    if es.len() == 0 {
        assert(w[0] == e);
        assert(w.skip(1) =~= Seq::<Seq<u8>>::empty());
        assert(gset_enc_elems(w) == spec_u32_to_le_bytes(e.len() as u32) + e + gset_enc_elems(
            Seq::<Seq<u8>>::empty(),
        ));
        assert(gset_enc_elems(w) =~= gset_enc_elems(es) + (spec_u32_to_le_bytes(e.len() as u32)
            + e));
    } else {
        assert(w[0] == es[0]);
        assert(w.skip(1) =~= es.skip(1).push(e));
        lemma_gset_enc_elems_push(es.skip(1), e);
        assert(spec_u32_to_le_bytes(es[0].len() as u32) + es[0] + (gset_enc_elems(es.skip(1)) + (
        spec_u32_to_le_bytes(e.len() as u32) + e)) =~= (spec_u32_to_le_bytes(es[0].len() as u32)
            + es[0] + gset_enc_elems(es.skip(1))) + (spec_u32_to_le_bytes(e.len() as u32) + e));
    }
}

} // verus!
