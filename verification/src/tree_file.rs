use vstd::prelude::*;
use vstd::bytes::*;
use crate::b_plus_tree::{BPlusTree, Node, entries_of, keys_of, children_of, ekeys, lemma_view_holds, lemma_view_key};
use crate::bytes_util::{push_u16, push_u64, read_u16, read_u64};
use crate::db_errors::DbError;

verus! {

/// Keys strictly increase along a list of pairs.
pub open spec fn keys_increasing(s: Seq<(u16, u64)>) -> bool {
    forall|i: int, j: int| 0 <= i < j < s.len() ==> s[i].0 < s[j].0
}

/// Some pair of `s` from position `from` on has key `k`.
pub open spec fn has_key_from(s: Seq<(u16, u64)>, from: int, k: u16) -> bool {
    exists|i: int| from <= i < s.len() && #[trigger] s[i].0 == k
}

impl BPlusTree {
    /// Appends the pairs that the subtree of node `n` holds, in increasing key order.
    fn collect(&self, n: usize, out: &mut Vec<(u16, u64)>)
        requires
            self.wf(),
            self.live@.contains(n),
        ensures
            final(out)@.len() >= old(out)@.len(),
            final(out)@.subrange(0, old(out)@.len() as int) == old(out)@,
            forall|i: int|
                old(out)@.len() <= i < final(out)@.len() ==> {
                    let (k, p) = #[trigger] final(out)@[i];
                    &&& self.in_range(n, k as int)
                    &&& self@.contains_key(k)
                    &&& self@[k] == p
                },
            forall|i: int, j: int|
                old(out)@.len() <= i < j < final(out)@.len() ==> #[trigger] final(out)@[i].0
                    < #[trigger] final(out)@[j].0,
            forall|k: u16|
                self@.contains_key(k) && self.in_range(n, k as int) ==> #[trigger] has_key_from(
                    final(out)@,
                    old(out)@.len() as int,
                    k,
                ),
        decreases self.height@[n],
    {
        let ghost start = out@.len();
        let ghost o = out@;
        proof {
            assert(self.wf_node(n));
        }
        match &self.nodes[n] {
            Node::Leaf { entries, .. } => {
                let ghost es = entries@;
                let mut i: usize = 0;
                while i < entries.len()
                    invariant
                        self.wf(),
                        self.live@.contains(n),
                        self.is_leaf(n),
                        self.leaf_ok(n),
                        es == entries@,
                        es == entries_of(self.node(n)),
                        i <= es.len(),
                        out@.len() == start + i,
                        out@.subrange(0, start as int) == o,
                        forall|q: int| 0 <= q < i ==> #[trigger] out@[start + q] == (es[q].record_id, es[q].page_id),
                    decreases es.len() - i,
                {
                    out.push((entries[i].record_id, entries[i].page_id));
                    i = i + 1;
                    assert(out@.subrange(0, start as int) =~= o);
                }
                proof {
                    assert forall|q: int| start <= q < out@.len() implies {
                        let (k, p) = #[trigger] out@[q];
                        &&& self.in_range(n, k as int)
                        &&& self@.contains_key(k)
                        &&& self@[k] == p
                    } by {
                        let e = q - start;
                        assert(out@[start + e] == (es[e].record_id, es[e].page_id));
                        assert(self.has_entry(n, e, es[e].record_id));
                        lemma_view_holds(self, es[e].record_id, es[e].page_id);
                    }
                    assert forall|a: int, b: int| start <= a < b < out@.len() implies #[trigger] out@[a].0
                        < #[trigger] out@[b].0 by {
                        assert(out@[start + (a - start)] == (es[a - start].record_id, es[a - start].page_id));
                        assert(out@[start + (b - start)] == (es[b - start].record_id, es[b - start].page_id));
                        assert(ekeys(es)[a - start] == es[a - start].record_id);
                        assert(ekeys(es)[b - start] == es[b - start].record_id);
                    }
                    assert forall|k: u16| self@.contains_key(k) && self.in_range(n, k as int) implies #[trigger] has_key_from(
                        out@,
                        start as int,
                        k,
                    ) by {
                        lemma_view_key(self, k);
                        let (l, e) = choose|l: usize, e: int| #[trigger] self.has_entry(l, e, k) && entries_of(
                            self.node(l),
                        )[e].page_id == self@[k];
                        assert(self.has_entry(l, e, k));
                        assert(self.leaf_ok(l));
                        assert(self.in_range(l, k as int));
                        assert(l == n);
                        assert(out@[start + e] == (es[e].record_id, es[e].page_id));
                        assert(out@[start + e].0 == k);
                    }
                }
            },
            Node::Internal { keys, children } => {
                let ghost ks = keys@;
                let ghost cs = children@;
                proof {
                    assert(self.internal_ok(n));
                }
                let mut c: usize = 0;
                while c < children.len()
                    invariant
                        self.wf(),
                        self.live@.contains(n),
                        self.internal_ok(n),
                        ks == keys@,
                        cs == children@,
                        ks == keys_of(self.node(n)),
                        cs == children_of(self.node(n)),
                        cs.len() == ks.len() + 1,
                        c <= cs.len(),
                        out@.len() >= start,
                        out@.subrange(0, start as int) == o,
                        c == 0 ==> out@.len() == start,
                        forall|i: int|
                            start <= i < out@.len() ==> {
                                let (k, p) = #[trigger] out@[i];
                                &&& self.in_range(n, k as int)
                                &&& self@.contains_key(k)
                                &&& self@[k] == p
                                &&& c > 0 ==> k < self.child_hi(n, ks, c - 1)
                            },
                        forall|i: int, j: int| start <= i < j < out@.len() ==> #[trigger] out@[i].0 < #[trigger] out@[j].0,
                        forall|k: u16|
                            self@.contains_key(k) && self.lo@[n] <= k && c > 0 && k < self.child_hi(n, ks, c - 1)
                                ==> #[trigger] has_key_from(out@, start as int, k),
                    decreases cs.len() - c,
                {
                    let ch = children[c];
                    let ghost before = out@;
                    let ghost mid = before.len();
                    proof {
                        assert(cs[c as int] == ch);
                        assert(self.live@.contains(ch));
                        assert(self.height@[ch] + 1 == self.height@[n]);
                        assert(self.lo@[ch] == self.child_lo(n, ks, c as int));
                        assert(self.hi@[ch] == self.child_hi(n, ks, c as int));
                        if c > 0 {
                            assert(self.strictly_in(n, ks[c - 1] as int));
                        }
                        if c < ks.len() {
                            assert(self.strictly_in(n, ks[c as int] as int));
                        }
                    }
                    self.collect(ch, out);
                    proof {
                        assert(out@.subrange(0, mid as int) == before);
                        assert(out@.subrange(0, start as int) =~= before.subrange(0, start as int));
                        assert forall|i: int| start <= i < out@.len() implies {
                            let (k, p) = #[trigger] out@[i];
                            &&& self.in_range(n, k as int)
                            &&& self@.contains_key(k)
                            &&& self@[k] == p
                            &&& k < self.child_hi(n, ks, c as int)
                        } by {
                            if i < mid {
                                assert(out@[i] == before[i]);
                            }
                        }
                        assert forall|i: int, j: int| start <= i < j < out@.len() implies #[trigger] out@[i].0
                            < #[trigger] out@[j].0 by {
                            if j < mid {
                                assert(out@[i] == before[i]);
                                assert(out@[j] == before[j]);
                            } else if i < mid {
                                assert(out@[i] == before[i]);
                                assert(self.in_range(ch, out@[j].0 as int));
                            }
                        }
                        assert forall|k: u16|
                            self@.contains_key(k) && self.lo@[n] <= k && k < self.child_hi(n, ks, c as int) implies #[trigger] has_key_from(
                            out@,
                            start as int,
                            k,
                        ) by {
                            if self.in_range(ch, k as int) {
                                assert(has_key_from(out@, mid as int, k));
                                let i = choose|i: int| mid <= i < out@.len() && #[trigger] out@[i].0 == k;
                                assert(start <= i);
                            } else {
                                assert(c > 0);
                                assert(has_key_from(before, start as int, k));
                                let i = choose|i: int| start <= i < before.len() && #[trigger] before[i].0 == k;
                                assert(out@[i] == before[i]);
                            }
                        }
                    }
                    c = c + 1;
                }
                proof {
                    assert(self.child_hi(n, ks, ks.len() as int) == self.hi@[n]);
                }
            },
        }
    }

    /// Every pair the tree holds, in increasing key order.
    pub fn entries(&self) -> (v: Vec<(u16, u64)>)
        requires
            self.wf(),
        ensures
            keys_increasing(v@),
            forall|i: int| 0 <= i < v@.len() ==> self@.contains_key(#[trigger] v@[i].0) && self@[v@[i].0] == v@[i].1,
            forall|k: u16| self@.contains_key(k) ==> #[trigger] has_key_from(v@, 0, k),
    {
        let mut v: Vec<(u16, u64)> = Vec::new();
        self.collect(self.root, &mut v);
        v
    }
}

/// The bytes of a list of pairs: each record id as two little-endian bytes, then its page
/// id as eight.
pub open spec fn pairs_bytes(s: Seq<(u16, u64)>) -> Seq<u8>
    decreases s.len(),
{
    if s.len() == 0 {
        Seq::empty()
    } else {
        pairs_bytes(s.drop_last()) + spec_u16_to_le_bytes(s.last().0) + spec_u64_to_le_bytes(s.last().1)
    }
}

/// The pairs that the first `n` ten-byte chunks of `b` encode.
pub open spec fn decode_pairs(b: Seq<u8>, n: nat) -> Seq<(u16, u64)>
    decreases n,
{
    if n == 0 {
        Seq::empty()
    } else {
        let off = 10 * (n - 1);
        decode_pairs(b, (n - 1) as nat).push(
            (spec_u16_from_le_bytes(b.subrange(off, off + 2)), spec_u64_from_le_bytes(b.subrange(off + 2, off + 10))),
        )
    }
}

/// The map that a list of pairs makes, later pairs overriding earlier ones.
pub open spec fn pairs_map(s: Seq<(u16, u64)>) -> Map<u16, u64>
    decreases s.len(),
{
    if s.len() == 0 {
        Map::empty()
    } else {
        pairs_map(s.drop_last()).insert(s.last().0, s.last().1)
    }
}

/// Two pairs of `s` share a key.
pub open spec fn has_repeat(s: Seq<(u16, u64)>) -> bool {
    exists|i: int, j: int| 0 <= i < j < s.len() && #[trigger] s[i].0 == #[trigger] s[j].0
}

proof fn lemma_pairs_bytes_len(s: Seq<(u16, u64)>)
    ensures
        pairs_bytes(s).len() == 10 * s.len(),
    decreases s.len(),
{
    if s.len() > 0 {
        lemma_pairs_bytes_len(s.drop_last());
        lemma_auto_spec_u16_to_from_le_bytes();
        lemma_auto_spec_u64_to_from_le_bytes();
    }
}

proof fn lemma_decode_prefix(b: Seq<u8>, c: Seq<u8>, n: nat)
    requires
        10 * n <= b.len(),
    ensures
        decode_pairs(b + c, n) == decode_pairs(b, n),
    decreases n,
{
    if n > 0 {
        lemma_decode_prefix(b, c, (n - 1) as nat);
        let off = 10 * (n - 1);
        assert((b + c).subrange(off, off + 2) =~= b.subrange(off, off + 2));
        assert((b + c).subrange(off + 2, off + 10) =~= b.subrange(off + 2, off + 10));
    }
}

/// Reading back the bytes of a list of pairs gives the list.
pub proof fn law_pairs_roundtrip(s: Seq<(u16, u64)>)
    ensures
        decode_pairs(pairs_bytes(s), s.len()) == s,
    decreases s.len(),
{
    if s.len() > 0 {
        let t = s.drop_last();
        law_pairs_roundtrip(t);
        lemma_pairs_bytes_len(t);
        lemma_auto_spec_u16_to_from_le_bytes();
        lemma_auto_spec_u64_to_from_le_bytes();
        let tail = spec_u16_to_le_bytes(s.last().0) + spec_u64_to_le_bytes(s.last().1);
        let b = pairs_bytes(t) + tail;
        assert(pairs_bytes(s) == b);
        lemma_decode_prefix(pairs_bytes(t), tail, t.len());
        let off: int = 10 * (t.len() as int);
        assert(b.subrange(off, off + 2) =~= spec_u16_to_le_bytes(s.last().0));
        assert(b.subrange(off + 2, off + 10) =~= spec_u64_to_le_bytes(s.last().1));
        assert(decode_pairs(b, s.len()) =~= t.push(s.last()));
        assert(t.push(s.last()) =~= s);
    }
}

/// A list of pairs in increasing key order that holds exactly the pairs of a map makes
/// that map.
pub proof fn law_pairs_map(s: Seq<(u16, u64)>, m: Map<u16, u64>)
    requires
        keys_increasing(s),
        forall|i: int| 0 <= i < s.len() ==> m.contains_key(#[trigger] s[i].0) && m[s[i].0] == s[i].1,
        forall|k: u16| m.contains_key(k) ==> #[trigger] has_key_from(s, 0, k),
    ensures
        pairs_map(s) == m,
    decreases s.len(),
{
    if s.len() == 0 {
        assert forall|k: u16| !m.contains_key(k) by {
            if m.contains_key(k) {
                assert(has_key_from(s, 0, k));
            }
        }
        assert(pairs_map(s) =~= m);
    } else {
        let t = s.drop_last();
        let last = s.last();
        let m2 = m.remove(last.0);
        assert forall|i: int| 0 <= i < t.len() implies m2.contains_key(#[trigger] t[i].0) && m2[t[i].0] == t[i].1 by {
            assert(t[i] == s[i]);
            assert(s[i].0 < s[s.len() - 1].0);
        }
        assert forall|k: u16| m2.contains_key(k) implies #[trigger] has_key_from(t, 0, k) by {
            assert(has_key_from(s, 0, k));
            let i = choose|i: int| 0 <= i < s.len() && #[trigger] s[i].0 == k;
            assert(i != s.len() - 1);
            assert(t[i] == s[i]);
        }
        assert(keys_increasing(t)) by {
            assert forall|i: int, j: int| 0 <= i < j < t.len() implies t[i].0 < t[j].0 by {
                assert(t[i] == s[i] && t[j] == s[j]);
            }
        }
        law_pairs_map(t, m2);
        assert(m.contains_key(s[s.len() - 1].0));
        assert(pairs_map(s) =~= m);
    }
}

impl BPlusTree {
    /// The bytes the tree is kept in: its pairs in increasing key order.
    pub fn serialise(&self) -> (out: Vec<u8>)
        requires
            self.wf(),
        ensures
            exists|v: Seq<(u16, u64)>|
                out@ == pairs_bytes(v) && keys_increasing(v) && pairs_map(v) == self@ && #[trigger] decode_pairs(
                    out@,
                    v.len(),
                ) == v,
            out@.len() % 10 == 0,
    {
        let v = self.entries();
        let mut out: Vec<u8> = Vec::new();
        let mut i: usize = 0;
        while i < v.len()
            invariant
                i <= v@.len(),
                out@ == pairs_bytes(v@.take(i as int)),
            decreases v@.len() - i,
        {
            push_u16(&mut out, v[i].0);
            push_u64(&mut out, v[i].1);
            proof {
                assert(v@.take(i + 1).drop_last() =~= v@.take(i as int));
                assert(v@.take(i + 1).last() == v@[i as int]);
            }
            i = i + 1;
        }
        proof {
            assert(v@.take(v@.len() as int) =~= v@);
            law_pairs_map(v@, self@);
            law_pairs_roundtrip(v@);
            lemma_pairs_bytes_len(v@);
        }
        out
    }

    /// A tree from the bytes it was kept in: `CorruptedDataError` unless they come in
    /// ten-byte pairs, `DuplicateKey` when two pairs share a record id.
    pub fn deserialise(bytes: &[u8]) -> (res: Result<BPlusTree, DbError>)
        ensures
            bytes@.len() % 10 != 0 ==> res == Err::<BPlusTree, DbError>(DbError::CorruptedDataError),
            bytes@.len() % 10 == 0 ==> {
                let s = decode_pairs(bytes@, (bytes@.len() / 10) as nat);
                &&& res is Ok <==> !has_repeat(s)
                &&& res is Err ==> res == Err::<BPlusTree, DbError>(DbError::DuplicateKey)
                &&& res matches Ok(t) ==> t.wf() && t@ == pairs_map(s)
            },
    {
        if bytes.len() % 10 != 0 {
            return Err(DbError::CorruptedDataError);
        }
        let n = bytes.len() / 10;
        let ghost s = decode_pairs(bytes@, n as nat);
        let mut tree = BPlusTree::new();
        let mut i: usize = 0;
        let mut off: usize = 0;
        proof {
            lemma_decode_len(bytes@, n as nat);
            assert(s.take(0) =~= Seq::<(u16, u64)>::empty());
            assert(tree@ =~= pairs_map(s.take(0)));
        }
        let blen = bytes.len();
        while i < n
            invariant
                blen == bytes@.len(),
                off == 10 * i,
                s.len() == n,
                n == bytes@.len() / 10,
                bytes@.len() % 10 == 0,
                s == decode_pairs(bytes@, n as nat),
                i <= n,
                tree.wf(),
                tree@ == pairs_map(s.take(i as int)),
                !has_repeat(s.take(i as int)),
                forall|k: u16| #[trigger] tree@.contains_key(k) <==> has_key_from(s.take(i as int), 0, k),
            decreases n - i,
        {
            assert(10 * i + 10 <= bytes@.len()) by (nonlinear_arith)
                requires
                    i < n,
                    n == bytes@.len() / 10,
            ;
            let k = read_u16(bytes, off);
            let p = read_u64(bytes, off + 2);
            proof {
                lemma_decode_take(bytes@, n as nat, (i + 1) as nat);
                lemma_decode_take(bytes@, n as nat, i as nat);
                assert(s.take(i + 1) =~= s.take(i as int).push((k, p)));
                assert(s.take(i + 1).drop_last() =~= s.take(i as int));
            }
            match tree.insert(k, p) {
                Ok(()) => {},
                Err(e) => {
                    proof {
                        assert(has_key_from(s.take(i as int), 0, k));
                        let a = choose|a: int| 0 <= a < s.take(i as int).len() && #[trigger] s.take(i as int)[a].0 == k;
                        assert(s[a] == s.take(i as int)[a]);
                        assert(s[i as int] == s.take(i + 1)[i as int]);
                        assert(s[a].0 == s[i as int].0);
                    }
                    return Err(e);
                },
            }
            proof {
                assert forall|x: int, y: int| 0 <= x < y < s.take(i + 1).len() implies #[trigger] s.take(i + 1)[x].0
                    != #[trigger] s.take(i + 1)[y].0 by {
                    if y == i {
                        if s.take(i + 1)[x].0 == s.take(i + 1)[y].0 {
                            assert(s.take(i as int)[x] == s.take(i + 1)[x]);
                            assert(has_key_from(s.take(i as int), 0, k));
                        }
                    } else {
                        assert(s.take(i as int)[x] == s.take(i + 1)[x]);
                        assert(s.take(i as int)[y] == s.take(i + 1)[y]);
                    }
                }
                assert forall|kk: u16| #[trigger] tree@.contains_key(kk) <==> has_key_from(s.take(i + 1), 0, kk) by {
                    if has_key_from(s.take(i + 1), 0, kk) && kk != k {
                        let a = choose|a: int| 0 <= a < s.take(i + 1).len() && #[trigger] s.take(i + 1)[a].0 == kk;
                        assert(a < i);
                        assert(s.take(i as int)[a] == s.take(i + 1)[a]);
                    }
                    if kk == k {
                        assert(s.take(i + 1)[i as int].0 == k);
                    }
                    if has_key_from(s.take(i as int), 0, kk) {
                        let a = choose|a: int| 0 <= a < s.take(i as int).len() && #[trigger] s.take(i as int)[a].0 == kk;
                        assert(s.take(i as int)[a] == s.take(i + 1)[a]);
                    }
                }
            }
            assert(off + 10 <= blen);
            off = off + 10;
            i = i + 1;
        }
        proof {
            assert(s.take(n as int) =~= s);
        }
        Ok(tree)
    }

    /// The greatest record id the tree holds, if any.
    pub fn max_key(&self) -> (r: Option<u16>)
        requires
            self.wf(),
        ensures
            r is None <==> self@.dom().is_empty(),
            r matches Some(k) ==> self@.contains_key(k) && forall|j: u16| #[trigger] self@.contains_key(j) ==> j <= k,
    {
        let v = self.entries();
        if v.len() == 0 {
            proof {
                assert forall|j: u16| !self@.contains_key(j) by {
                    if self@.contains_key(j) {
                        assert(has_key_from(v@, 0, j));
                    }
                }
                assert(self@.dom() =~= Set::<u16>::empty());
            }
            return None;
        }
        let k = v[v.len() - 1].0;
        proof {
            assert(self@.contains_key(v@[v@.len() - 1].0));
            assert forall|j: u16| #[trigger] self@.contains_key(j) implies j <= k by {
                assert(has_key_from(v@, 0, j));
                let a = choose|a: int| 0 <= a < v@.len() && #[trigger] v@[a].0 == j;
                if a < v@.len() - 1 {
                    assert(v@[a].0 < v@[v@.len() - 1].0);
                }
            }
            assert(self@.dom().contains(k));
        }
        Some(k)
    }
}

proof fn lemma_decode_len(b: Seq<u8>, n: nat)
    ensures
        decode_pairs(b, n).len() == n,
    decreases n,
{
    if n > 0 {
        lemma_decode_len(b, (n - 1) as nat);
    }
}

proof fn lemma_decode_take(b: Seq<u8>, n: nat, m: nat)
    requires
        m <= n,
    ensures
        decode_pairs(b, n).take(m as int) == decode_pairs(b, m),
    decreases n,
{
    lemma_decode_len(b, n);
    lemma_decode_len(b, m);
    if n > m {
        lemma_decode_len(b, (n - 1) as nat);
        lemma_decode_take(b, (n - 1) as nat, m);
        assert(decode_pairs(b, n).take(m as int) =~= decode_pairs(b, (n - 1) as nat).take(m as int));
    } else {
        assert(decode_pairs(b, n).take(m as int) =~= decode_pairs(b, n));
    }
}

/// What `serialise` writes, `deserialise` reads back as a tree with the same map: the bytes
/// come in whole pairs, no record id repeats, and the pairs make the map.
pub proof fn law_tree_roundtrip(out: Seq<u8>, m: Map<u16, u64>)
    requires
        exists|v: Seq<(u16, u64)>| out == pairs_bytes(v) && keys_increasing(v) && pairs_map(v) == m,
    ensures
        out.len() % 10 == 0,
        !has_repeat(decode_pairs(out, out.len() / 10)),
        pairs_map(decode_pairs(out, out.len() / 10)) == m,
{
    let v = choose|v: Seq<(u16, u64)>| out == pairs_bytes(v) && keys_increasing(v) && pairs_map(v) == m;
    lemma_pairs_bytes_len(v);
    law_pairs_roundtrip(v);
    assert(out.len() / 10 == v.len());
    assert forall|i: int, j: int| 0 <= i < j < v.len() implies #[trigger] v[i].0 != #[trigger] v[j].0 by {
    }
}

} // verus!
