use vstd::prelude::*;
use std::collections::HashMap;
use crate::db_errors::DbError;
use vstd::bytes::*;
use crate::bytes_util::{read_u16, read_u64, PAGE_SIZE};
use crate::slotted_page::{Page, SLOT_SIZE, spec_has_space};

verus! {

broadcast use vstd::std_specs::hash::group_hash_axioms;

/// A node of the recency list: neighbours by index, and the cached page.
pub struct DLLNode {
    pub prev: Option<usize>,
    pub next: Option<usize>,
    pub page: Page,
}

/// A doubly linked list kept in an arena of nodes; freed nodes are kept in `trash` and
/// reused. `order` is the list from head (most recently used) to tail.
pub struct DLL {
    pub head: Option<usize>,
    pub tail: Option<usize>,
    pub nodes: Vec<DLLNode>,
    pub trash: Vec<usize>,
    pub capacity: usize,
    pub order: Ghost<Seq<usize>>,
}

/// A page cache of bounded size that evicts the least recently used page.
pub struct LRUCache {
    pub map: HashMap<u64, usize>,
    pub dll: DLL,
}

/// Position of `x` in `s` (any position holding it, if `s` repeats it).
pub open spec fn pos_of(s: Seq<usize>, x: usize) -> int {
    choose|p: int| 0 <= p < s.len() && s[p] == x
}

impl DLLNode {
    pub closed spec fn spec_prev(&self) -> Option<usize> {
        self.prev
    }

    pub closed spec fn spec_next(&self) -> Option<usize> {
        self.next
    }

    /// A node holding `page`, linked to nothing.
    fn new(page: Page) -> (n: Self)
        ensures
            n.page == page,
            n.prev is None,
            n.next is None,
    {
        Self { prev: None, next: None, page }
    }
}

impl DLL {
    pub closed spec fn spec_capacity(&self) -> usize {
        self.capacity
    }

    pub closed spec fn spec_tail(&self) -> Option<usize> {
        self.tail
    }

    /// The links of the nodes, head and tail agree with `order`; listed nodes and trashed
    /// nodes are distinct valid indices and together account for every node.
    pub closed spec fn wf(&self) -> bool {
        let s = self.order@;
        let n = self.nodes@.len();
        let t = self.trash@;
        &&& forall|p: int| 0 <= p < s.len() ==> #[trigger] s[p] < n
        &&& forall|p: int, q: int| 0 <= p < s.len() && 0 <= q < s.len() && p != q ==> #[trigger] s[p] != #[trigger] s[q]
        &&& forall|k: int| 0 <= k < t.len() ==> #[trigger] t[k] < n
        &&& forall|k: int, l: int| 0 <= k < t.len() && 0 <= l < t.len() && k != l ==> #[trigger] t[k] != #[trigger] t[l]
        &&& forall|p: int, k: int| 0 <= p < s.len() && 0 <= k < t.len() ==> #[trigger] s[p] != #[trigger] t[k]
        &&& s.len() + t.len() == n
        &&& self.head == (if s.len() > 0 { Some(s[0]) } else { None })
        &&& self.tail == (if s.len() > 0 { Some(s[s.len() - 1]) } else { None })
        &&& forall|p: int|
            0 <= p < s.len() ==> (#[trigger] self.nodes@[s[p] as int]).prev == (if p == 0 {
                None
            } else {
                Some(s[p - 1])
            })
        &&& forall|p: int|
            0 <= p < s.len() ==> (#[trigger] self.nodes@[s[p] as int]).next == (if p == s.len() - 1 {
                None
            } else {
                Some(s[p + 1])
            })
    }

    /// In a well-formed list the head is the first node of `order` and the tail the last,
    /// or both are `None` when the list is empty.
    pub proof fn lemma_ends(&self)
        requires
            self.wf(),
        ensures
            self.head == (if self.order@.len() > 0 { Some(self.order@[0]) } else { None }),
            self.tail == (if self.order@.len() > 0 { Some(self.order@[self.order@.len() - 1]) } else { None }),
    {
    }

    /// An empty list that keeps at most `capacity` nodes after each insertion.
    fn new(capacity: usize) -> (d: Self)
        ensures
            d.wf(),
            d.order@ == Seq::<usize>::empty(),
            d.nodes@.len() == 0,
            d.spec_capacity() == capacity,
    {
        let nodes: Vec<DLLNode> = Vec::new();
        let trash: Vec<usize> = Vec::new();
        Self { head: None, tail: None, nodes, trash, capacity, order: Ghost(Seq::empty()) }
    }

    /// Moves listed node `idx` to the head of the list.
    fn move_to_head(&mut self, idx: usize) -> (res: Result<(), DbError>)
        requires
            old(self).wf(),
            old(self).order@.contains(idx),

        ensures
            res is Ok,
            final(self).wf(),
            final(self).order@ == seq![idx] + old(self).order@.remove(pos_of(old(self).order@, idx)),
            final(self).trash == old(self).trash,
            final(self).nodes@.len() == old(self).nodes@.len(),
            forall|i: int| 0 <= i < final(self).nodes@.len() ==> (#[trigger] final(self).nodes@[i]).page == old(self).nodes@[i].page,
            final(self).spec_capacity() == old(self).spec_capacity(),
    {
        let ghost s = self.order@;
        let ghost p = pos_of(s, idx);
        let head = match self.head {
            Some(h) => h,
            None => return Err(DbError::CorruptedDataError),
        };
        let tail = match self.tail {
            Some(t) => t,
            None => return Err(DbError::CorruptedDataError),
        };
        if head == tail && idx == head {
            proof {
                assert(s.len() == 1) by {
                    if s.len() > 1 {
                        assert(s[0] != s[s.len() - 1]);
                    }
                }
                assert(seq![idx] + s.remove(p) =~= s);
            }
            return Ok(());
        } else if idx == head {
            proof {
                assert(p == 0);
                assert(seq![idx] + s.remove(p) =~= s);
            }
            return Ok(());
        }
        proof {
            assert(p > 0);
        }
        let prev_idx = match self.nodes[idx].prev {
            Some(pv) => pv,
            None => return Err(DbError::CorruptedDataError),
        };
        let ghost s2 = seq![idx] + s.remove(p);
        if idx == tail {
            self.set_next(prev_idx, None);
            self.tail = Some(prev_idx);
        } else {
            let next_idx = match self.nodes[idx].next {
                Some(nx) => nx,
                None => return Err(DbError::CorruptedDataError),
            };
            self.set_next(prev_idx, Some(next_idx));
            self.set_prev(next_idx, Some(prev_idx));
        }
        self.set_prev(idx, None);
        self.set_next(idx, Some(head));
        self.set_prev(head, Some(idx));
        self.head = Some(idx);
        self.order = Ghost(s2);
        proof {
            assert forall|q: int, r: int| 0 <= q < s2.len() && 0 <= r < s2.len() && q != r implies #[trigger] s2[q]
                != #[trigger] s2[r] by {
                let q0 = if q == 0 { p } else if q <= p { q - 1 } else { q };
                let r0 = if r == 0 { p } else if r <= p { r - 1 } else { r };
                assert(s2[q] == s[q0] && s2[r] == s[r0]);
            }
            assert forall|q: int| 0 <= q < s2.len() implies #[trigger] s2[q] < self.nodes@.len() by {
                let q0 = if q == 0 { p } else if q <= p { q - 1 } else { q };
                assert(s2[q] == s[q0]);
            }
            assert forall|q: int, k: int| 0 <= q < s2.len() && 0 <= k < self.trash@.len() implies #[trigger] s2[q]
                != #[trigger] self.trash@[k] by {
                let q0 = if q == 0 { p } else if q <= p { q - 1 } else { q };
                assert(s2[q] == s[q0]);
            }
            assert forall|q: int| 0 <= q < s2.len() implies (#[trigger] self.nodes@[s2[q] as int]).prev == (if q == 0 {
                None
            } else {
                Some(s2[q - 1])
            }) && self.nodes@[s2[q] as int].next == (if q == s2.len() - 1 {
                None
            } else {
                Some(s2[q + 1])
            }) by {
                let q0 = if q == 0 { p } else if q <= p { q - 1 } else { q };
                assert(s2[q] == s[q0]);
                if q > 0 {
                    let qm = if q - 1 == 0 { p } else if q - 1 <= p { q - 2 } else { q - 1 };
                    assert(s2[q - 1] == s[qm]);
                }
                if q < s2.len() - 1 {
                    let qp = if q + 1 <= p { q } else { q + 1 };
                    assert(s2[q + 1] == s[qp]);
                }
            }
            assert(s2[s2.len() - 1] == (if p == s.len() - 1 { s[p - 1] } else { s[s.len() - 1] }));
        }
        Ok(())
    }

    /// Sets the `next` link of node `i`.
    fn set_next(&mut self, i: usize, v: Option<usize>)
        requires
            i < old(self).nodes@.len(),
        ensures
            final(self).nodes@ == old(self).nodes@.update(
                i as int,
                (DLLNode { next: v, ..old(self).nodes@[i as int] }),
            ),
            final(self).head == old(self).head,
            final(self).tail == old(self).tail,
            final(self).trash == old(self).trash,
            final(self).order == old(self).order,
            final(self).capacity == old(self).capacity,
    {
        let mut node = self.nodes.remove(i);
        node.next = v;
        self.nodes.insert(i, node);
        assert(self.nodes@ =~= old(self).nodes@.update(i as int, (DLLNode { next: v, ..old(self).nodes@[i as int] })));
    }

    /// Sets the `prev` link of node `i`.
    fn set_prev(&mut self, i: usize, v: Option<usize>)
        requires
            i < old(self).nodes@.len(),
        ensures
            final(self).nodes@ == old(self).nodes@.update(
                i as int,
                (DLLNode { prev: v, ..old(self).nodes@[i as int] }),
            ),
            final(self).head == old(self).head,
            final(self).tail == old(self).tail,
            final(self).trash == old(self).trash,
            final(self).order == old(self).order,
            final(self).capacity == old(self).capacity,
    {
        let mut node = self.nodes.remove(i);
        node.prev = v;
        self.nodes.insert(i, node);
        assert(self.nodes@ =~= old(self).nodes@.update(i as int, (DLLNode { prev: v, ..old(self).nodes@[i as int] })));
    }
}

impl DLL {
    /// Page id of node `i`.
    pub closed spec fn pid(&self, i: usize) -> u64 {
        self.nodes@[i as int].page.header.page_id
    }

    /// Page ids of the listed nodes, most recently used first.
    pub closed spec fn ids(&self) -> Seq<u64> {
        self.order@.map_values(|i: usize| self.pid(i))
    }

    /// Unlinks listed node `idx` and puts it in the trash.
    fn delete_node(&mut self, idx: usize) -> (res: Result<(), DbError>)
        requires
            old(self).wf(),
            old(self).order@.contains(idx),
        ensures
            res is Ok,
            final(self).wf(),
            final(self).order@ == old(self).order@.remove(pos_of(old(self).order@, idx)),
            final(self).trash@ == old(self).trash@.push(idx),
            final(self).nodes@.len() == old(self).nodes@.len(),
            forall|i: int| 0 <= i < final(self).nodes@.len() ==> (#[trigger] final(self).nodes@[i]).page == old(self).nodes@[i].page,
            final(self).spec_capacity() == old(self).spec_capacity(),
    {
        let ghost s = self.order@;
        let ghost p = pos_of(s, idx);
        let ghost s2 = s.remove(p);
        let head = match self.head {
            Some(h) => h,
            None => return Err(DbError::CorruptedDataError),
        };
        let tail = match self.tail {
            Some(t) => t,
            None => return Err(DbError::CorruptedDataError),
        };
        if idx == head {
            if idx == tail {
                proof {
                    assert(s.len() == 1) by {
                        if s.len() > 1 {
                            assert(s[0] != s[s.len() - 1]);
                        }
                    }
                }
                self.head = None;
                self.tail = None;
                self.trash.push(idx);
            } else {
                let next_idx = match self.nodes[idx].next {
                    Some(n) => n,
                    None => return Err(DbError::CorruptedDataError),
                };
                self.set_prev(next_idx, None);
                self.head = Some(next_idx);
                self.trash.push(idx);
            }
        } else if idx == tail {
            let prev_idx = match self.nodes[idx].prev {
                Some(pv) => pv,
                None => return Err(DbError::CorruptedDataError),
            };
            self.set_next(prev_idx, None);
            self.tail = Some(prev_idx);
            self.trash.push(idx);
        } else {
            let next_idx = match self.nodes[idx].next {
                Some(n) => n,
                None => return Err(DbError::CorruptedDataError),
            };
            let prev_idx = match self.nodes[idx].prev {
                Some(pv) => pv,
                None => return Err(DbError::CorruptedDataError),
            };
            self.set_next(prev_idx, Some(next_idx));
            self.set_prev(next_idx, Some(prev_idx));
            self.trash.push(idx);
        }
        self.order = Ghost(s2);
        proof {
            let t2 = self.trash@;
            assert forall|q: int| 0 <= q < s2.len() implies #[trigger] s2[q] == s[if q < p { q } else { q + 1 }] by {}
            assert forall|q: int, r: int| 0 <= q < s2.len() && 0 <= r < s2.len() && q != r implies #[trigger] s2[q]
                != #[trigger] s2[r] by {
                assert(s2[q] == s[if q < p { q } else { q + 1 }]);
                assert(s2[r] == s[if r < p { r } else { r + 1 }]);
            }
            assert forall|q: int| 0 <= q < s2.len() implies #[trigger] s2[q] < self.nodes@.len() by {
                assert(s2[q] == s[if q < p { q } else { q + 1 }]);
            }
            assert forall|k: int| 0 <= k < t2.len() implies #[trigger] t2[k] < self.nodes@.len() by {}
            assert forall|k: int, l: int| 0 <= k < t2.len() && 0 <= l < t2.len() && k != l implies #[trigger] t2[k]
                != #[trigger] t2[l] by {
                if k == t2.len() - 1 {
                    assert(s[p] != old(self).trash@[l]);
                } else if l == t2.len() - 1 {
                    assert(s[p] != old(self).trash@[k]);
                }
            }
            assert forall|q: int, k: int| 0 <= q < s2.len() && 0 <= k < t2.len() implies #[trigger] s2[q]
                != #[trigger] t2[k] by {
                let q0 = if q < p { q } else { q + 1 };
                assert(s2[q] == s[q0]);
                if k == t2.len() - 1 {
                    assert(s[q0] != s[p]);
                }
            }
            assert forall|q: int| 0 <= q < s2.len() implies (#[trigger] self.nodes@[s2[q] as int]).prev == (if q == 0 {
                None
            } else {
                Some(s2[q - 1])
            }) && self.nodes@[s2[q] as int].next == (if q == s2.len() - 1 {
                None
            } else {
                Some(s2[q + 1])
            }) by {
                let q0 = if q < p { q } else { q + 1 };
                assert(s2[q] == s[q0]);
                assert(s[q0] != s[p]);
                if q > 0 {
                    let qm = if q - 1 < p { q - 1 } else { q };
                    assert(s2[q - 1] == s[qm]);
                }
                if q < s2.len() - 1 {
                    let qp = if q + 1 < p { q + 1 } else { q + 2 };
                    assert(s2[q + 1] == s[qp]);
                }
                if p > 0 {
                    assert(s[p - 1] != s[p]);
                }
                if p < s.len() - 1 {
                    assert(s[p + 1] != s[p]);
                }
            }
            if s2.len() > 0 {
                assert(s2[0] == (if p == 0 { s[1] } else { s[0] }));
                assert(s2[s2.len() - 1] == (if p == s.len() - 1 { s[p - 1] } else { s[s.len() - 1] }));
            }
        }
        Ok(())
    }

    /// Unlinks the tail node and puts it in the trash, returning its index, so that the
    /// caller can write its page out; on an empty list returns `capacity + 1`.
    pub fn pop_tail(&mut self) -> (res: Result<usize, DbError>)
        requires
            old(self).wf(),
            old(self).spec_capacity() < usize::MAX,
        ensures
            res is Ok,
            final(self).wf(),
            final(self).spec_capacity() == old(self).spec_capacity(),
            final(self).nodes@.len() == old(self).nodes@.len(),
            forall|i: int| 0 <= i < final(self).nodes@.len() ==> (#[trigger] final(self).nodes@[i]).page == old(self).nodes@[i].page,
            old(self).order@.len() == 0 ==> res == Ok::<usize, DbError>((old(self).spec_capacity() + 1) as usize)
                && final(self).order == old(self).order && final(self).trash == old(self).trash,
            old(self).order@.len() > 0 ==> res == Ok::<usize, DbError>(old(self).order@.last())
                && final(self).order@ == old(self).order@.drop_last() && final(self).trash@ == old(
                self,
            ).trash@.push(old(self).order@.last()),
    {
        let ghost s = self.order@;
        match self.tail {
            None => Ok(self.capacity + 1),
            Some(tail) => {
                proof {
                    assert(pos_of(s, tail) == s.len() - 1) by {
                        let q = pos_of(s, tail);
                        if q != s.len() - 1 {
                            assert(s[q] != s[s.len() - 1]);
                        }
                    }
                    assert(s.remove(s.len() - 1) =~= s.drop_last());
                }
                self.delete_node(tail)?;
                Ok(tail)
            },
        }
    }
}

/// The map sends each cached page id to the listed node holding that page, and nothing else.
pub open spec fn cache_ok(d: DLL, m: Map<u64, usize>) -> bool {
    let s = d.order@;
    &&& d.wf()
    &&& forall|p: int| 0 <= p < s.len() ==> #[trigger] m.contains_key(d.pid(s[p])) && m[d.pid(s[p])] == s[p]
    &&& forall|k: u64| #[trigger] m.contains_key(k) ==> exists|p: int| 0 <= p < s.len() && s[p] == m[k] && d.pid(s[p]) == k
}

/// `m2` is `m` without the page ids of the nodes in `gone`.
pub open spec fn map_without(d: DLL, m: Map<u64, usize>, m2: Map<u64, usize>, gone: Seq<usize>) -> bool {
    &&& forall|k: u64| #[trigger] m2.contains_key(k) <==> (m.contains_key(k) && !(exists|e: int| 0 <= e < gone.len() && d.pid(gone[e]) == k))
    &&& forall|k: u64| #[trigger] m2.contains_key(k) ==> m2[k] == m[k]
}

/// Length of the list kept after shrinking to `cap`.
pub open spec fn kept(len: int, cap: int) -> int {
    if len < cap { len } else { cap }
}

impl DLL {
    /// Evicts nodes from the tail while more than `capacity` are listed, dropping their page
    /// ids from `map`. Returns the evicted node indices, first evicted first; their pages
    /// stay in place for the caller to write out.
    pub fn shrink(&mut self, map: &mut HashMap<u64, usize>) -> (res: Result<Vec<usize>, DbError>)
        requires
            old(self).wf(),
            old(self).spec_capacity() < usize::MAX,
        ensures
            res is Ok,
            final(self).wf(),
            final(self).spec_capacity() == old(self).spec_capacity(),
            final(self).order@ == old(self).order@.subrange(0, kept(old(self).order@.len() as int, old(self).spec_capacity() as int)),
            res->Ok_0@ == old(self).order@.subrange(kept(old(self).order@.len() as int, old(self).spec_capacity() as int), old(self).order@.len() as int).reverse(),
            final(self).trash@ == old(self).trash@ + res->Ok_0@,
            final(self).nodes@.len() == old(self).nodes@.len(),
            forall|i: int| 0 <= i < final(self).nodes@.len() ==> (#[trigger] final(self).nodes@[i]).page == old(self).nodes@[i].page,
            map_without(*old(self), old(map)@, final(map)@, res->Ok_0@),
    {
        let ghost s0 = self.order@;
        let ghost m0 = map@;
        let ghost d0 = *self;
        let ghost t0 = self.trash@;
        let ghost cap = self.capacity as int;
        let mut evicted: Vec<usize> = Vec::new();
        proof {
            assert(s0.subrange(0, s0.len() as int) =~= s0);
            assert(s0.subrange(s0.len() as int, s0.len() as int).reverse() =~= Seq::<usize>::empty());
        }
        while self.nodes.len() - self.trash.len() > self.capacity
            invariant
                self.wf(),
                self.capacity == d0.capacity,
                self.nodes@.len() == d0.nodes@.len(),
                forall|i: int| 0 <= i < self.nodes@.len() ==> (#[trigger] self.nodes@[i]).page == d0.nodes@[i].page,
                self.order@.len() >= kept(s0.len() as int, cap),
                self.order@.len() <= s0.len(),
                self.order@ == s0.subrange(0, self.order@.len() as int),
                evicted@ == s0.subrange(self.order@.len() as int, s0.len() as int).reverse(),
                self.trash@ == t0 + evicted@,
                map_without(d0, m0, map@, evicted@),
                cap < usize::MAX,
                cap == d0.capacity as int,
            decreases self.order@.len(),
        {
            let ghost len = self.order@.len() as int;
            proof {
                assert(self.order@.len() + self.trash@.len() == self.nodes@.len());
                assert(self.nodes@.len() - self.trash@.len() > self.capacity);
                assert(len > cap);
            }
            let idx = self.pop_tail()?;
            proof {
                assert(idx == s0[len - 1]);
                assert(s0.subrange(0, len).drop_last() =~= s0.subrange(0, len - 1));
                assert(s0.subrange(len - 1, s0.len() as int).reverse() =~= s0.subrange(len, s0.len() as int).reverse().push(idx));
            }
            let page_id = self.nodes[idx].page.header.page_id;
            let ghost mprev = map@;
            let ghost evp = evicted@;
            map.remove(&page_id);
            evicted.push(idx);
            proof {
                assert(map@ == mprev.remove(page_id));
                let ev = evicted@;
                assert(ev.drop_last() =~= evp);
                assert(self.trash@ =~= t0 + ev);
                assert(page_id == d0.pid(idx));
                assert forall|k: u64| #[trigger] map@.contains_key(k) <==> (m0.contains_key(k) && !(exists|e: int| 0 <= e < ev.len() && d0.pid(ev[e]) == k)) by {
                    if map@.contains_key(k) {
                        assert(mprev.contains_key(k) && k != page_id);
                        if exists|e: int| 0 <= e < ev.len() && d0.pid(ev[e]) == k {
                            let e = choose|e: int| 0 <= e < ev.len() && d0.pid(ev[e]) == k;
                            if e < ev.len() - 1 {
                                assert(evp[e] == ev[e]);
                            }
                        }
                    } else if m0.contains_key(k) {
                        if k == page_id {
                            assert(d0.pid(ev[ev.len() - 1]) == k);
                        } else {
                            assert(!mprev.contains_key(k));
                            let e = choose|e: int| 0 <= e < evp.len() && d0.pid(evp[e]) == k;
                            assert(ev[e] == evp[e]);
                        }
                    }
                }
            }
        }
        Ok(evicted)
    }

    /// Puts a node holding `page` at the head of the list, reusing a trashed node when
    /// there is one, then shrinks the list to its capacity. Returns the evicted node indices.
    fn add_node(&mut self, page: Page, map: &mut HashMap<u64, usize>) -> (res: Result<Vec<usize>, DbError>)
        requires
            old(self).wf(),
            old(self).spec_capacity() < usize::MAX,
            old(self).nodes@.len() < usize::MAX,
        ensures
            res is Ok,
            final(self).wf(),
            final(self).spec_capacity() == old(self).spec_capacity(),
            ({
                let idx = if old(self).trash@.len() > 0 {
                    old(self).trash@.last()
                } else {
                    old(self).nodes@.len() as usize
                };
                let s1 = seq![idx] + old(self).order@;
                let kp = kept(s1.len() as int, old(self).spec_capacity() as int);
                &&& final(self).order@ == s1.subrange(0, kp)
                &&& res->Ok_0@ == s1.subrange(kp, s1.len() as int).reverse()
                &&& final(self).nodes@[idx as int].page == page
                &&& final(self).nodes@.len() == (if old(self).trash@.len() > 0 {
                    old(self).nodes@.len()
                } else {
                    old(self).nodes@.len() + 1
                })
                &&& forall|i: int| 0 <= i < old(self).nodes@.len() && i != idx ==> (#[trigger] final(self).nodes@[i]).page == old(self).nodes@[i].page
                &&& !old(self).order@.contains(idx)
                &&& exists|d1: DLL| {
                    &&& d1.nodes@.len() == final(self).nodes@.len()
                    &&& forall|i: int| 0 <= i < d1.nodes@.len() ==> (#[trigger] d1.nodes@[i]).page == final(self).nodes@[i].page
                    &&& map_without(d1, old(map)@, final(map)@, res->Ok_0@)
                }
            }),
    {
        let ghost s = self.order@;
        let ghost o = *self;
        let new_node = DLLNode::new(page);
        let idx: usize;
        if !self.trash.is_empty() {
            idx = match self.trash.pop() {
                Some(i) => i,
                None => return Err(DbError::CorruptedDataError),
            };
            proof {
                assert(!s.contains(idx)) by {
                    if s.contains(idx) {
                        let q = choose|q: int| 0 <= q < s.len() && s[q] == idx;
                        assert(s[q] != o.trash@[o.trash@.len() - 1]);
                    }
                }
            }
            self.nodes.remove(idx);
            self.nodes.insert(idx, new_node);
        } else {
            idx = self.nodes.len();
            self.nodes.push(new_node);
            proof {
                assert(!s.contains(idx)) by {
                    if s.contains(idx) {
                        let q = choose|q: int| 0 <= q < s.len() && s[q] == idx;
                    }
                }
            }
        }
        let ghost n1 = self.nodes@;
        match self.head {
            Some(old_head) => {
                self.set_prev(old_head, Some(idx));
                self.set_next(idx, Some(old_head));
                self.head = Some(idx);
            },
            None => {
                self.head = Some(idx);
                self.tail = Some(idx);
            },
        }
        let ghost s1 = seq![idx] + s;
        self.order = Ghost(s1);
        proof {
            assert forall|q: int| 0 <= q < s.len() implies #[trigger] s[q] != idx by {}
            let t1 = self.trash@;
            assert forall|q: int, r: int| 0 <= q < s1.len() && 0 <= r < s1.len() && q != r implies #[trigger] s1[q]
                != #[trigger] s1[r] by {
                if q > 0 && r > 0 {
                    assert(s1[q] == s[q - 1] && s1[r] == s[r - 1]);
                } else if q > 0 {
                    assert(s1[q] == s[q - 1]);
                } else {
                    assert(s1[r] == s[r - 1]);
                }
            }
            assert forall|q: int| 0 <= q < s1.len() implies #[trigger] s1[q] < self.nodes@.len() by {
                if q > 0 {
                    assert(s1[q] == s[q - 1]);
                }
            }
            assert forall|k: int| 0 <= k < t1.len() implies #[trigger] t1[k] < self.nodes@.len() by {
                assert(t1[k] == o.trash@[k]);
            }
            assert forall|k: int, l: int| 0 <= k < t1.len() && 0 <= l < t1.len() && k != l implies #[trigger] t1[k]
                != #[trigger] t1[l] by {
                assert(t1[k] == o.trash@[k] && t1[l] == o.trash@[l]);
            }
            assert forall|q: int, k: int| 0 <= q < s1.len() && 0 <= k < t1.len() implies #[trigger] s1[q]
                != #[trigger] t1[k] by {
                assert(t1[k] == o.trash@[k]);
                if q > 0 {
                    assert(s1[q] == s[q - 1]);
                } else if o.trash@.len() > 0 {
                    assert(o.trash@[k] != o.trash@[o.trash@.len() - 1]);
                }
            }
            assert forall|q: int| 0 <= q < s1.len() implies (#[trigger] self.nodes@[s1[q] as int]).prev == (if q == 0 {
                None
            } else {
                Some(s1[q - 1])
            }) && self.nodes@[s1[q] as int].next == (if q == s1.len() - 1 {
                None
            } else {
                Some(s1[q + 1])
            }) by {
                if q > 0 {
                    assert(s1[q] == s[q - 1]);
                    assert(s[q - 1] != idx);
                }
                if q > 1 {
                    assert(s1[q - 1] == s[q - 2]);
                }
                if q < s1.len() - 1 {
                    assert(s1[q + 1] == s[q]);
                }
            }
        }
        let ghost d1 = *self;
        let evicted = self.shrink(map)?;
        proof {
            assert forall|i: int| 0 <= i < d1.nodes@.len() implies (#[trigger] d1.nodes@[i]).page == self.nodes@[i].page by {}
        }
        Ok(evicted)
    }
}

/// Every position of `s` other than `p` survives moving `s[p]` to the front.
proof fn lemma_move_front_contains(s: Seq<usize>, p: int, x: usize)
    requires
        0 <= p < s.len(),
        s.contains(x),
    ensures
        (seq![s[p]] + s.remove(p)).contains(x),
        (seq![s[p]] + s.remove(p)).len() == s.len(),
{
    let s2 = seq![s[p]] + s.remove(p);
    let q = choose|q: int| 0 <= q < s.len() && s[q] == x;
    if q == p {
        assert(s2[0] == x);
    } else if q < p {
        assert(s2[q + 1] == x);
    } else {
        assert(s2[q] == x);
    }
}

proof fn lemma_move_front_from(s: Seq<usize>, p: int, r: int)
    requires
        0 <= p < s.len(),
        0 <= r < s.len(),
    ensures
        s.contains((seq![s[p]] + s.remove(p))[r]),
{
    let s2 = seq![s[p]] + s.remove(p);
    if r == 0 {
        assert(s[p] == s2[r]);
    } else if r <= p {
        assert(s[r - 1] == s2[r]);
    } else {
        assert(s[r] == s2[r]);
    }
}

impl LRUCache {
    /// An empty cache holding at most `capacity` pages.
    pub fn new(capacity: usize) -> (c: Self)
        ensures
            cache_ok(c.dll, c.map@),
            c.dll.order@ == Seq::<usize>::empty(),
            c.dll.spec_capacity() == capacity,
            c.dll.nodes@.len() == 0,
            c.dll.trash@.len() == 0,
            c.dll.head is None,
            c.map@ == Map::<u64, usize>::empty(),
    {
        let dll = DLL::new(capacity);
        let map: HashMap<u64, usize> = HashMap::new();
        Self { map, dll }
    }

    /// Index of the node caching page `page_id`, which becomes the most recently used;
    /// `RecordAbsent` if the page is not cached.
    pub fn get_index(&mut self, page_id: u64) -> (res: Result<usize, DbError>)
        requires
            cache_ok(old(self).dll, old(self).map@),
        ensures
            cache_ok(final(self).dll, final(self).map@),
            final(self).map@ == old(self).map@,
            final(self).dll.spec_capacity() == old(self).dll.spec_capacity(),
            final(self).dll.nodes@.len() == old(self).dll.nodes@.len(),
            forall|i: int| 0 <= i < final(self).dll.nodes@.len() ==> (#[trigger] final(self).dll.nodes@[i]).page == old(self).dll.nodes@[i].page,
            final(self).dll.trash == old(self).dll.trash,
            old(self).map@.contains_key(page_id) <==> res is Ok,
            res is Err ==> res == Err::<usize, DbError>(DbError::RecordAbsent) && final(self).dll == old(self).dll,
            res is Ok ==> ({
                let idx = res->Ok_0;
                &&& idx == old(self).map@[page_id]
                &&& old(self).dll.order@.contains(idx)
                &&& old(self).dll.pid(idx) == page_id
                &&& final(self).dll.order@ == seq![idx] + old(self).dll.order@.remove(pos_of(old(self).dll.order@, idx))
                &&& final(self).dll.head == Some(idx)
            }),
    {
        match self.map.get(&page_id) {
            Some(idx_ref) => {
                let idx = *idx_ref;
                let ghost s = self.dll.order@;
                let ghost d0 = self.dll;
                proof {
                    let p = choose|p: int| 0 <= p < s.len() && s[p] == self.map@[page_id] && d0.pid(s[p]) == page_id;
                    assert(s.contains(idx));
                }
                match self.dll.move_to_head(idx) {
                    Ok(_) => {
                        proof {
                            lemma_cache_ok_after_move(d0, self.dll, self.map@, idx);
                        }
                        Ok(idx)
                    },
                    Err(_) => Err(DbError::CorruptedDataError),
                }
            },
            None => Err(DbError::RecordAbsent),
        }
    }

    /// The node caching page `page_id`, which becomes the most recently used;
    /// `RecordAbsent` if the page is not cached.
    pub fn get(&mut self, page_id: u64) -> (res: Result<&DLLNode, DbError>)
        requires
            cache_ok(old(self).dll, old(self).map@),
        ensures
            cache_ok(final(self).dll, final(self).map@),
            final(self).map@ == old(self).map@,
            final(self).dll.nodes@.len() == old(self).dll.nodes@.len(),
            forall|i: int| 0 <= i < final(self).dll.nodes@.len() ==> (#[trigger] final(self).dll.nodes@[i]).page == old(self).dll.nodes@[i].page,
            old(self).map@.contains_key(page_id) <==> res is Ok,
            res is Err ==> res == Err::<&DLLNode, DbError>(DbError::RecordAbsent) && final(self).dll.order == old(self).dll.order,
            res is Ok ==> ({
                let idx = old(self).map@[page_id];
                &&& res->Ok_0.page == old(self).dll.nodes@[idx as int].page
                &&& res->Ok_0.page.header.page_id == page_id
                &&& final(self).dll.order@ == seq![idx] + old(self).dll.order@.remove(pos_of(old(self).dll.order@, idx))
                &&& final(self).dll.head == Some(idx)
            }),
    {
        let idx = self.get_index(page_id)?;
        Ok(&self.dll.nodes[idx])
    }

    /// Drops page `page_id` from the cache, if it is there; its node goes to the trash.
    pub fn delete(&mut self, page_id: u64) -> (res: Result<(), DbError>)
        requires
            cache_ok(old(self).dll, old(self).map@),
        ensures
            res is Ok,
            cache_ok(final(self).dll, final(self).map@),
            final(self).map@ == old(self).map@.remove(page_id),
            final(self).dll.nodes@.len() == old(self).dll.nodes@.len(),
            forall|i: int| 0 <= i < final(self).dll.nodes@.len() ==> (#[trigger] final(self).dll.nodes@[i]).page == old(self).dll.nodes@[i].page,
            final(self).dll.spec_capacity() == old(self).dll.spec_capacity(),
            !old(self).map@.contains_key(page_id) ==> final(self).dll == old(self).dll,
            old(self).map@.contains_key(page_id) ==> ({
                let idx = old(self).map@[page_id];
                &&& final(self).dll.order@ == old(self).dll.order@.remove(pos_of(old(self).dll.order@, idx))
                &&& final(self).dll.trash@ == old(self).dll.trash@.push(idx)
            }),
    {
        let ghost m0 = self.map@;
        let ghost d0 = self.dll;
        let idx = match self.map.remove(&page_id) {
            Some(idx) => idx,
            None => {
                assert(self.map@ =~= m0.remove(page_id));
                return Ok(());
            },
        };
        proof {
            let s = d0.order@;
            let p = choose|p: int| 0 <= p < s.len() && s[p] == m0[page_id] && d0.pid(s[p]) == page_id;
            assert(s.contains(idx));
        }
        let r = self.dll.delete_node(idx);
        proof {
            lemma_cache_ok_after_delete(d0, self.dll, m0, page_id);
        }
        r
    }

    /// Caches `page` as the most recently used page, evicting least recently used pages
    /// beyond the capacity. Returns the indices of the evicted nodes, whose pages the
    /// caller writes out.
    pub fn set_new(&mut self, page: Page) -> (res: Result<Vec<usize>, DbError>)
        requires
            cache_ok(old(self).dll, old(self).map@),
            !old(self).map@.contains_key(page.header.page_id),
            old(self).dll.spec_capacity() < usize::MAX,
            old(self).dll.nodes@.len() < usize::MAX,
        ensures
            cache_ok(final(self).dll, final(self).map@),
            final(self).dll.spec_capacity() == old(self).dll.spec_capacity(),
            old(self).dll.spec_capacity() == 0 <==> res is Err,
            res is Err ==> res == Err::<Vec<usize>, DbError>(DbError::CorruptedDataError),
            res is Ok ==> ({
                let idx = final(self).map@[page.header.page_id];
                let s1 = seq![idx] + old(self).dll.order@;
                let kp = kept(s1.len() as int, old(self).dll.spec_capacity() as int);
                &&& final(self).map@.contains_key(page.header.page_id)
                &&& final(self).dll.nodes@[idx as int].page == page
                &&& final(self).dll.order@ == s1.subrange(0, kp)
                &&& res->Ok_0@ == s1.subrange(kp, s1.len() as int).reverse()
                &&& final(self).dll.head == Some(idx)
            }),
            final(self).dll.nodes@.len() <= old(self).dll.nodes@.len() + 1,
    {
        let id = page.header.page_id;
        let ghost d0 = self.dll;
        let ghost m0 = self.map@;
        let ghost s0 = d0.order@;
        let ghost idx0 = if d0.trash@.len() > 0 { d0.trash@.last() } else { d0.nodes@.len() as usize };
        let evicted = self.dll.add_node(page, &mut self.map)?;
        let ghost m1 = self.map@;
        proof {
            lemma_cache_ok_after_add(d0, self.dll, m0, m1, evicted@, idx0, id);
        }
        let idx = match self.dll.head {
            Some(t) => t,
            None => return Err(DbError::CorruptedDataError),
        };
        self.map.insert(id, idx);
        proof {
            lemma_cache_ok_after_insert(self.dll, m1, self.map@, idx, id);
        }
        Ok(evicted)
    }
}

proof fn lemma_cache_ok_after_move(d0: DLL, d1: DLL, m: Map<u64, usize>, idx: usize)
    requires
        cache_ok(d0, m),
        d0.order@.contains(idx),
        d1.wf(),
        d1.order@ == seq![idx] + d0.order@.remove(pos_of(d0.order@, idx)),
        d1.nodes@.len() == d0.nodes@.len(),
        forall|i: int| 0 <= i < d1.nodes@.len() ==> (#[trigger] d1.nodes@[i]).page == d0.nodes@[i].page,
    ensures
        cache_ok(d1, m),
{
    let s = d0.order@;
    let s2 = d1.order@;
    let p = pos_of(s, idx);
    assert(s[p] == idx);
    assert forall|q: int| 0 <= q < s2.len() implies #[trigger] m.contains_key(d1.pid(s2[q])) && m[d1.pid(s2[q])] == s2[q] by {
        lemma_move_front_from(s, p, q);
        let r = choose|r: int| 0 <= r < s.len() && s[r] == s2[q];
        assert(d1.pid(s2[q]) == d0.pid(s[r]));
        assert(m.contains_key(d0.pid(s[r])));
    }
    assert forall|k: u64| #[trigger] m.contains_key(k) implies exists|q: int| 0 <= q < s2.len() && s2[q] == m[k] && d1.pid(s2[q]) == k by {
        let r = choose|r: int| 0 <= r < s.len() && s[r] == m[k] && d0.pid(s[r]) == k;
        lemma_move_front_contains(s, p, s[r]);
        let q = choose|q: int| 0 <= q < s2.len() && s2[q] == s[r];
        assert(d1.pid(s2[q]) == d0.pid(s[r]));
    }
}

proof fn lemma_cache_ok_after_delete(d0: DLL, d1: DLL, m: Map<u64, usize>, page_id: u64)
    requires
        cache_ok(d0, m),
        m.contains_key(page_id),
        d1.wf(),
        d1.order@ == d0.order@.remove(pos_of(d0.order@, m[page_id])),
        d1.nodes@.len() == d0.nodes@.len(),
        forall|i: int| 0 <= i < d1.nodes@.len() ==> (#[trigger] d1.nodes@[i]).page == d0.nodes@[i].page,
    ensures
        cache_ok(d1, m.remove(page_id)),
{
    let s = d0.order@;
    let s2 = d1.order@;
    let idx = m[page_id];
    let r0 = choose|r: int| 0 <= r < s.len() && s[r] == idx && d0.pid(s[r]) == page_id;
    let p = pos_of(s, idx);
    assert(s[p] == idx);
    assert(p == r0) by {
        if p != r0 {
            assert(s[p] != s[r0]);
        }
    }
    let m2 = m.remove(page_id);
    assert forall|q: int| 0 <= q < s2.len() implies #[trigger] m2.contains_key(d1.pid(s2[q])) && m2[d1.pid(s2[q])] == s2[q] by {
        let r = if q < p { q } else { q + 1 };
        assert(s2[q] == s[r]);
        assert(d1.pid(s2[q]) == d0.pid(s[r]));
        assert(m.contains_key(d0.pid(s[r])));
        assert(m[d0.pid(s[r])] == s[r]);
        assert(s[r] != s[p]);
    }
    assert forall|k: u64| #[trigger] m2.contains_key(k) implies exists|q: int| 0 <= q < s2.len() && s2[q] == m2[k] && d1.pid(s2[q]) == k by {
        let r = choose|r: int| 0 <= r < s.len() && s[r] == m[k] && d0.pid(s[r]) == k;
        assert(r != p);
        let q = if r < p { r } else { r - 1 };
        assert(s2[q] == s[r]);
        assert(d1.pid(s2[q]) == d0.pid(s[r]));
    }
}

/// Like `cache_ok`, except that the head's page id is not yet in the map.
pub open spec fn cache_ok_but_head(d: DLL, m: Map<u64, usize>, id: u64) -> bool {
    let s = d.order@;
    &&& d.wf()
    &&& s.len() > 0
    &&& d.pid(s[0]) == id
    &&& !m.contains_key(id)
    &&& forall|p: int| 1 <= p < s.len() ==> #[trigger] m.contains_key(d.pid(s[p])) && m[d.pid(s[p])] == s[p]
    &&& forall|k: u64| #[trigger] m.contains_key(k) ==> exists|p: int| 1 <= p < s.len() && s[p] == m[k] && d.pid(s[p]) == k
}

proof fn lemma_cache_ok_after_add(
    d0: DLL,
    d1: DLL,
    m0: Map<u64, usize>,
    m1: Map<u64, usize>,
    evicted: Seq<usize>,
    idx0: usize,
    id: u64,
)
    requires
        cache_ok(d0, m0),
        !m0.contains_key(id),
        !d0.order@.contains(idx0),
        d1.wf(),
        ({
            let s1 = seq![idx0] + d0.order@;
            let kp = kept(s1.len() as int, d0.spec_capacity() as int);
            &&& d1.order@ == s1.subrange(0, kp)
            &&& evicted == s1.subrange(kp, s1.len() as int).reverse()
        }),
        d1.nodes@.len() >= d0.nodes@.len(),
        idx0 < d1.nodes@.len(),
        d1.nodes@[idx0 as int].page.header.page_id == id,
        forall|i: int| 0 <= i < d0.nodes@.len() && i != idx0 ==> (#[trigger] d1.nodes@[i]).page == d0.nodes@[i].page,
        exists|dx: DLL| {
            &&& dx.nodes@.len() == d1.nodes@.len()
            &&& forall|i: int| 0 <= i < dx.nodes@.len() ==> (#[trigger] dx.nodes@[i]).page == d1.nodes@[i].page
            &&& map_without(dx, m0, m1, evicted)
        },
    ensures
        d1.order@.len() == 0 ==> cache_ok(d1, m1),
        d1.order@.len() > 0 ==> cache_ok_but_head(d1, m1, id) && d1.order@[0] == idx0,
{
    let s = d0.order@;
    let s1 = seq![idx0] + s;
    let kp = kept(s1.len() as int, d0.spec_capacity() as int);
    let sp = d1.order@;
    let dx = choose|dx: DLL| {
        &&& dx.nodes@.len() == d1.nodes@.len()
        &&& forall|i: int| 0 <= i < dx.nodes@.len() ==> (#[trigger] dx.nodes@[i]).page == d1.nodes@[i].page
        &&& map_without(dx, m0, m1, evicted)
    };
    assert forall|j: int| 0 <= j < s.len() implies #[trigger] d1.pid(s[j]) == d0.pid(s[j]) && dx.pid(s[j]) == d0.pid(s[j]) by {
        assert(s[j] != idx0);
        assert(s[j] < d0.nodes@.len());
        assert(d1.nodes@[s[j] as int].page == d0.nodes@[s[j] as int].page);
        assert(dx.nodes@[s[j] as int].page == d1.nodes@[s[j] as int].page);
    }
    assert(dx.nodes@[idx0 as int].page == d1.nodes@[idx0 as int].page);
    assert(dx.pid(idx0) == id);
    // an evicted node is s1[kp + ...]
    assert forall|e: int| 0 <= e < evicted.len() implies #[trigger] evicted[e] == s1[s1.len() - 1 - e] by {}
    assert forall|k: u64| #[trigger] m1.contains_key(k) implies m0.contains_key(k) && m1[k] == m0[k] && exists|r: int| 0 <= r < s.len() && s[r] == m0[k] && d0.pid(s[r]) == k && r + 1 < kp by {
        let r = choose|r: int| 0 <= r < s.len() && s[r] == m0[k] && d0.pid(s[r]) == k;
        if r + 1 >= kp {
            let e = s1.len() - 1 - (r + 1);
            assert(evicted[e] == s[r]);
            assert(dx.pid(evicted[e]) == k);
        }
    }
    if sp.len() == 0 {
        assert forall|k: u64| #[trigger] m1.contains_key(k) implies false by {
            let r = choose|r: int| 0 <= r < s.len() && s[r] == m0[k] && d0.pid(s[r]) == k && r + 1 < kp;
        }
    } else {
        assert(sp[0] == idx0);
        assert(!m1.contains_key(id));
        assert forall|q: int| 1 <= q < sp.len() implies #[trigger] m1.contains_key(d1.pid(sp[q])) && m1[d1.pid(sp[q])] == sp[q] by {
            assert(sp[q] == s[q - 1]);
            assert(0 <= q - 1 < s.len());
            let k = d0.pid(s[q - 1]);
            assert(m0.contains_key(d0.pid(s[q - 1])));
            assert(m0.contains_key(k) && m0[k] == s[q - 1]);
            if !m1.contains_key(k) {
                let e = choose|e: int| 0 <= e < evicted.len() && dx.pid(evicted[e]) == k;
                let j = s1.len() - 1 - e;
                if j == 0 {
                    assert(dx.pid(idx0) == id);
                } else {
                    assert(evicted[e] == s[j - 1]);
                    assert(m0[d0.pid(s[j - 1])] == s[j - 1]);
                    assert(s[j - 1] == s[q - 1]);
                    if j - 1 != q - 1 {
                        assert(s[j - 1] != s[q - 1]);
                    }
                }
            }
        }
        assert forall|k: u64| #[trigger] m1.contains_key(k) implies exists|p: int| 1 <= p < sp.len() && sp[p] == m1[k] && d1.pid(sp[p]) == k by {
            let r = choose|r: int| 0 <= r < s.len() && s[r] == m0[k] && d0.pid(s[r]) == k && r + 1 < kp;
            assert(sp[r + 1] == s[r]);
        }
    }
}

proof fn lemma_cache_ok_after_insert(d: DLL, m1: Map<u64, usize>, m2: Map<u64, usize>, idx: usize, id: u64)
    requires
        cache_ok_but_head(d, m1, id),
        d.order@[0] == idx,
        m2 == m1.insert(id, idx),
    ensures
        cache_ok(d, m2),
{
    let s = d.order@;
    assert forall|p: int| 0 <= p < s.len() implies #[trigger] m2.contains_key(d.pid(s[p])) && m2[d.pid(s[p])] == s[p] by {
        if p > 0 {
            assert(m1.contains_key(d.pid(s[p])));
        }
    }
    assert forall|k: u64| #[trigger] m2.contains_key(k) implies exists|p: int| 0 <= p < s.len() && s[p] == m2[k] && d.pid(s[p]) == k by {
        if k == id {
            assert(s[0] == m2[k]);
        } else {
            let p = choose|p: int| 1 <= p < s.len() && s[p] == m1[k] && d.pid(s[p]) == k;
        }
    }
}

impl LRUCache {
    /// The node caching page `page_id`, for modification; it becomes the most recently
    /// used. `RecordAbsent` if the page is not cached.
    pub fn get_mut(&mut self, page_id: u64) -> (res: Result<&mut DLLNode, DbError>)
        requires
            cache_ok(old(self).dll, old(self).map@),
        ensures
            old(self).map@.contains_key(page_id) <==> res is Ok,
            final(self).map@ == old(self).map@,
            res is Err ==> res == Err::<&mut DLLNode, DbError>(DbError::RecordAbsent) && final(self).dll == old(self).dll,
            res matches Ok(r) ==> {
                let idx = old(self).map@[page_id];
                &&& r.page == old(self).dll.nodes@[idx as int].page
                &&& final(self).dll.order@ == seq![idx] + old(self).dll.order@.remove(pos_of(old(self).dll.order@, idx))
                &&& final(self).dll.nodes@[idx as int] == *final(r)
            },
    {
        let idx = self.get_index(page_id)?;
        Ok(&mut self.dll.nodes[idx])
    }
}

/// The page id of the first page along `s`, most recently used first, that is in order and
/// has room for a record of `size` bytes.
pub open spec fn first_roomy(nodes: Seq<DLLNode>, s: Seq<usize>, size: int) -> Option<u64>
    decreases s.len(),
{
    if s.len() == 0 {
        None
    } else {
        let pg = nodes[s[0] as int].page;
        if pg.basic() && spec_has_space(pg, size) {
            Some(pg.header.page_id)
        } else {
            first_roomy(nodes, s.drop_first(), size)
        }
    }
}

impl LRUCache {
    /// The first cached page, most recently used first, with room for a record of `size`
    /// bytes; a page whose header bounds do not hold counts as full.
    pub fn find_free_cached(&self, size: usize) -> (res: Option<u64>)
        requires
            self.dll.wf(),
            size + SLOT_SIZE <= u32::MAX,
        ensures
            res == first_roomy(self.dll.nodes@, self.dll.order@, size as int),
    {
        let ghost s = self.dll.order@;
        let mut curr = self.dll.head;
        let ghost mut p: int = 0;
        assert(s.skip(0) =~= s);
        while curr.is_some()
            invariant
                self.dll.wf(),
                s == self.dll.order@,
                0 <= p <= s.len(),
                curr == (if p < s.len() { Some(s[p]) } else { None::<usize> }),
                size + SLOT_SIZE <= u32::MAX,
                first_roomy(self.dll.nodes@, s, size as int) == first_roomy(self.dll.nodes@, s.skip(p), size as int),
            decreases s.len() - p,
        {
            let idx = curr.unwrap();
            proof {
                assert(s[p] < self.dll.nodes@.len());
                assert(s.skip(p)[0] == s[p]);
                assert(s.skip(p).drop_first() =~= s.skip(p + 1));
            }
            let node = &self.dll.nodes[idx];
            if node.page.is_basic() && node.page.has_space(size) {
                return Some(node.page.header.page_id);
            }
            curr = node.next;
            proof {
                p = p + 1;
            }
        }
        proof {
            assert(s.skip(p).len() == 0);
        }
        None
    }
}

/// The page id of the first entry of the page space file `meta`, from entry `k` on and
/// among the first `count` entries of 10 bytes (page id, free bytes), whose free bytes
/// reach `need`; entries past the end of the file count as full.
pub open spec fn first_meta_roomy(meta: Seq<u8>, k: nat, count: nat, need: int) -> Option<u64>
    decreases count - k,
{
    if k >= count || 10 * k + 10 > meta.len() {
        None
    } else {
        let off: int = 10 * (k as int);
        if spec_u16_from_le_bytes(meta.subrange(off + 8, off + 10)) >= need {
            Some(spec_u64_from_le_bytes(meta.subrange(off, off + 8)))
        } else {
            first_meta_roomy(meta, k + 1, count, need)
        }
    }
}

/// The first page, by the page space file `meta`, among the `db_size / PAGE_SIZE` pages of
/// the database file, with at least `size` plus a slot's bytes free.
pub fn find_free_in_metadata(meta: &[u8], db_size: u64, size: usize) -> (res: Option<u64>)
    requires
        size + SLOT_SIZE <= u32::MAX,
    ensures
        res == first_meta_roomy(meta@, 0, (db_size / PAGE_SIZE as u64) as nat, size + SLOT_SIZE),
{
    let count: u64 = db_size / PAGE_SIZE as u64;
    let need: usize = size + SLOT_SIZE;
    let mut k: u64 = 0;
    while k < count && k < (meta.len() / 10) as u64
        invariant
            count == db_size / PAGE_SIZE as u64,
            need == size + SLOT_SIZE,
            k <= count,
            first_meta_roomy(meta@, 0, count as nat, need as int) == first_meta_roomy(meta@, k as nat, count as nat, need as int),
        decreases count - k,
    {
        let off = (k * 10) as usize;
        let free = read_u16(meta, off + 8);
        if (free as usize) >= need {
            return Some(read_u64(meta, off));
        }
        k = k + 1;
    }
    None
}

/// Where a page's entry sits in the page space file, and its ten bytes: the page id, then
/// its free bytes cut to 16 bits, little endian.
pub fn page_space_entry(page_id: u64, free: usize) -> (r: (u64, Vec<u8>))
    requires
        page_id >= 1,
        (page_id - 1) * 10 <= u64::MAX,
    ensures
        r.0 == (page_id - 1) * 10,
        r.1@ == spec_u64_to_le_bytes(page_id) + spec_u16_to_le_bytes(free as u16),
{
    let mut bytes: Vec<u8> = Vec::new();
    crate::bytes_util::push_u64(&mut bytes, page_id);
    crate::bytes_util::push_u16(&mut bytes, free as u16);
    ((page_id - 1) * 10, bytes)
}

/// A page space file whose entry `k` was written by `page_space_entry` for a page with
/// `free` bytes reports that page for any record that fits, when no earlier entry does.
pub proof fn law_space_entry_found(meta: Seq<u8>, k: nat, count: nat, page_id: u64, free: u16, need: int)
    requires
        k < count,
        10 * k + 10 <= meta.len(),
        meta.subrange(10 * (k as int), 10 * (k as int) + 10) == spec_u64_to_le_bytes(page_id) + spec_u16_to_le_bytes(free),
        need <= free,
    ensures
        first_meta_roomy(meta, k, count, need) == Some(page_id),
{
    lemma_auto_spec_u16_to_from_le_bytes();
    lemma_auto_spec_u64_to_from_le_bytes();
    let off: int = 10 * (k as int);
    let e = spec_u64_to_le_bytes(page_id) + spec_u16_to_le_bytes(free);
    assert(meta.subrange(off, off + 8) =~= e.subrange(0, 8));
    assert(meta.subrange(off + 8, off + 10) =~= e.subrange(8, 10));
    assert(e.subrange(0, 8) =~= spec_u64_to_le_bytes(page_id));
    assert(e.subrange(8, 10) =~= spec_u16_to_le_bytes(free));
}

} // verus!
