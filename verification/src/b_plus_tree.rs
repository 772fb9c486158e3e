use vstd::prelude::*;
use crate::db_errors::DbError;

verus! {

/// Largest number of keys a node may reach before it is split.
pub const MAX_SIZE: usize = 4;

/// Upper end (exclusive) of the key space.
pub open spec fn key_space_end() -> int {
    65536
}

/// A leaf entry: a record id and the page that holds the record.
#[derive(Debug, Clone, Copy)]
pub struct Entry {
    pub record_id: u16,
    pub page_id: u64,
}

/// A node of the tree, kept in an arena and named by its index.
pub enum Node {
    Internal { keys: Vec<u16>, children: Vec<usize> },
    Leaf { entries: Vec<Entry>, next: Option<usize> },
}

/// A B+ tree from record ids to page ids. Nodes live in an arena; freed nodes are kept in
/// `trash` for reuse. The ghost fields record, for every node in use, its height, the key
/// range it covers and its parent.
pub struct BPlusTree {
    pub root: usize,
    pub nodes: Vec<Node>,
    pub trash: Vec<usize>,
    pub m: usize,
    pub live: Ghost<Set<usize>>,
    pub height: Ghost<Map<usize, nat>>,
    pub lo: Ghost<Map<usize, int>>,
    pub hi: Ghost<Map<usize, int>>,
    pub parent: Ghost<Map<usize, usize>>,
}

/// Keys of a list of entries.
pub open spec fn ekeys(es: Seq<Entry>) -> Seq<u16> {
    es.map_values(|e: Entry| e.record_id)
}

/// Strictly increasing.
pub open spec fn sorted(s: Seq<u16>) -> bool {
    forall|i: int, j: int| 0 <= i < j < s.len() ==> s[i] < s[j]
}

/// For a sorted sequence, the index of the first key greater than `j`.
pub open spec fn pp(s: Seq<u16>, j: int) -> int
    decreases s.len(),
{
    if s.len() == 0 {
        0
    } else if s.last() <= j {
        s.len() as int
    } else {
        pp(s.drop_last(), j)
    }
}

pub proof fn lemma_pp(s: Seq<u16>, j: int)
    requires
        sorted(s),
    ensures
        0 <= pp(s, j) <= s.len(),
        forall|i: int| 0 <= i < pp(s, j) ==> s[i] <= j,
        forall|i: int| pp(s, j) <= i < s.len() ==> s[i] > j,
    decreases s.len(),
{
    if s.len() > 0 {
        let t = s.drop_last();
        if s.last() > j {
            assert(sorted(t));
            lemma_pp(t, j);
            assert forall|i: int| 0 <= i < pp(s, j) implies s[i] <= j by {
                assert(t[i] == s[i]);
            }
            assert forall|i: int| pp(s, j) <= i < s.len() implies s[i] > j by {
                if i < s.len() - 1 {
                    assert(t[i] == s[i]);
                }
            }
        } else {
            assert forall|i: int| 0 <= i < pp(s, j) implies s[i] <= j by {
                if i < s.len() - 1 {
                    assert(s[i] < s[s.len() - 1]);
                }
            }
        }
    }
}

/// The index of the first key greater than `j`: the child to follow for `j`.
fn partition_point(keys: &Vec<u16>, j: u16) -> (idx: usize)
    requires
        sorted(keys@),
    ensures
        idx == pp(keys@, j as int),
{
    let mut lo: usize = 0;
    let mut hi: usize = keys.len();
    proof {
        lemma_pp(keys@, j as int);
    }
    while lo < hi
        invariant
            0 <= lo <= hi <= keys@.len(),
            sorted(keys@),
            forall|i: int| 0 <= i < lo ==> keys@[i] <= j,
            forall|i: int| hi <= i < keys@.len() ==> keys@[i] > j,
        decreases hi - lo,
    {
        let mid = lo + (hi - lo) / 2;
        if keys[mid] <= j {
            lo = mid + 1;
        } else {
            hi = mid;
        }
    }
    proof {
        lemma_pp(keys@, j as int);
        let p = pp(keys@, j as int);
        if p < lo {
            assert(keys@[p] > j);
        }
        if p > lo {
            assert(keys@[lo as int] <= j);
        }
    }
    lo
}

/// Binary search of a sorted leaf: `Ok(i)` if entry `i` has key `j`, else `Err(i)` with
/// `i` the position where `j` would go.
fn search_entries(entries: &Vec<Entry>, j: u16) -> (r: Result<usize, usize>)
    requires
        sorted(ekeys(entries@)),
    ensures
        match r {
            Ok(i) => i < entries@.len() && entries@[i as int].record_id == j,
            Err(i) => i <= entries@.len() && (forall|k: int| 0 <= k < i ==> entries@[k].record_id < j) && (
            forall|k: int| i <= k < entries@.len() ==> entries@[k].record_id > j),
        },
{
    let mut lo: usize = 0;
    let mut hi: usize = entries.len();
    while lo < hi
        invariant
            0 <= lo <= hi <= entries@.len(),
            sorted(ekeys(entries@)),
            forall|k: int| 0 <= k < lo ==> entries@[k].record_id < j,
            forall|k: int| hi <= k < entries@.len() ==> entries@[k].record_id > j,
        decreases hi - lo,
    {
        let mid = lo + (hi - lo) / 2;
        let key = entries[mid].record_id;
        proof {
            assert(ekeys(entries@)[mid as int] == key);
            assert forall|k: int| 0 <= k < mid implies entries@[k].record_id < key by {
                assert(ekeys(entries@)[k] == entries@[k].record_id);
            }
            assert forall|k: int| mid < k < entries@.len() implies entries@[k].record_id > key by {
                assert(ekeys(entries@)[k] == entries@[k].record_id);
            }
        }
        if key == j {
            return Ok(mid);
        } else if key < j {
            lo = mid + 1;
        } else {
            hi = mid;
        }
    }
    Err(lo)
}


/// Entries of a leaf (empty for an internal node).
pub open spec fn entries_of(n: Node) -> Seq<Entry> {
    match n {
        Node::Leaf { entries, .. } => entries@,
        Node::Internal { .. } => Seq::empty(),
    }
}

/// Keys of an internal node (empty for a leaf).
pub open spec fn keys_of(n: Node) -> Seq<u16> {
    match n {
        Node::Internal { keys, .. } => keys@,
        Node::Leaf { .. } => Seq::empty(),
    }
}

/// Children of an internal node (empty for a leaf).
pub open spec fn children_of(n: Node) -> Seq<usize> {
    match n {
        Node::Internal { children, .. } => children@,
        Node::Leaf { .. } => Seq::empty(),
    }
}

/// Splits a leaf into its entries and its link to the next leaf.
fn leaf_parts(node: Node) -> (r: (Vec<Entry>, Option<usize>))
    requires
        node is Leaf,
    ensures
        r.0@ == entries_of(node),
        r.1 == node->Leaf_next,
{
    match node {
        Node::Leaf { entries, next } => (entries, next),
        Node::Internal { .. } => (Vec::new(), None),
    }
}

/// Splits an internal node into its keys and its children.
fn internal_parts(node: Node) -> (r: (Vec<u16>, Vec<usize>))
    requires
        node is Internal,
    ensures
        r.0@ == keys_of(node),
        r.1@ == children_of(node),
{
    match node {
        Node::Internal { keys, children } => (keys, children),
        Node::Leaf { .. } => (Vec::new(), Vec::new()),
    }
}

impl BPlusTree {
    /// Node `x` of the arena.
    pub open spec fn node(&self, x: usize) -> Node {
        self.nodes@[x as int]
    }

    /// Node `x` is a leaf.
    pub open spec fn is_leaf(&self, x: usize) -> bool {
        self.nodes@[x as int] is Leaf
    }

    /// Key `j` lies in the range that node `n` covers.
    pub open spec fn in_range(&self, n: usize, j: int) -> bool {
        self.lo@[n] <= j < self.hi@[n]
    }

    /// Key `j` lies strictly inside the range of node `n`.
    pub open spec fn strictly_in(&self, n: usize, j: int) -> bool {
        self.lo@[n] < j < self.hi@[n]
    }

    /// Lower end of the range of child `c` of internal node `n` with keys `keys`.
    pub open spec fn child_lo(&self, n: usize, keys: Seq<u16>, c: int) -> int {
        if c == 0 {
            self.lo@[n]
        } else {
            keys[c - 1] as int
        }
    }

    /// Upper end of the range of child `c` of internal node `n` with keys `keys`.
    pub open spec fn child_hi(&self, n: usize, keys: Seq<u16>, c: int) -> int {
        if c == keys.len() {
            self.hi@[n]
        } else {
            keys[c] as int
        }
    }

    /// Leaf `x` sits at height 0, has a non-empty range and holds sorted entries inside it.
    pub open spec fn leaf_ok(&self, x: usize) -> bool {
        let es = entries_of(self.node(x));
        &&& self.height@[x] == 0
        &&& self.lo@[x] < self.hi@[x]
        &&& sorted(ekeys(es))
        &&& forall|i: int| 0 <= i < es.len() ==> self.in_range(x, #[trigger] es[i].record_id as int)
    }

    /// Internal node `n` has a non-empty range, sorted keys strictly inside it and one more
    /// child than keys;
    /// its children are distinct nodes in use, none of them the root, each one level
    /// lower, covering the range between its neighbouring keys and naming `n` as parent.
    pub open spec fn internal_ok(&self, n: usize) -> bool {
        let keys = keys_of(self.node(n));
        let children = children_of(self.node(n));
        &&& self.height@[n] > 0
        &&& self.lo@[n] < self.hi@[n]
        &&& children.len() == keys.len() + 1
        &&& sorted(keys)
        &&& forall|i: int| 0 <= i < keys.len() ==> self.strictly_in(n, #[trigger] keys[i] as int)
        &&& forall|a: int, b: int|
            0 <= a < children.len() && 0 <= b < children.len() && a != b ==> #[trigger] children[a]
                != #[trigger] children[b]
        &&& forall|c: int|
            0 <= c < children.len() ==> {
                let ch = #[trigger] children[c];
                &&& self.live@.contains(ch)
                &&& ch != self.root
                &&& self.parent@[ch] == n
                &&& self.height@[ch] + 1 == self.height@[n]
                &&& self.lo@[ch] == self.child_lo(n, keys, c)
                &&& self.hi@[ch] == self.child_hi(n, keys, c)
            }
    }

    /// Node `x` is well formed.
    pub open spec fn wf_node(&self, x: usize) -> bool {
        if self.is_leaf(x) {
            self.leaf_ok(x)
        } else {
            self.internal_ok(x)
        }
    }

    /// The arena: `m` allows splits, the root is in use, nodes in use and trashed nodes
    /// are valid indices, and no trashed node is in use or trashed twice.
    pub open spec fn arena_ok(&self) -> bool {
        &&& self.m >= 2
        &&& self.live@.contains(self.root)
        &&& forall|x: usize| #[trigger] self.live@.contains(x) ==> x < self.nodes@.len()
        &&& forall|k: int| 0 <= k < self.trash@.len() ==> #[trigger] self.trash@[k] < self.nodes@.len()
            && !self.live@.contains(self.trash@[k])
        &&& forall|k: int, l: int|
            0 <= k < self.trash@.len() && 0 <= l < self.trash@.len() && k != l ==> #[trigger] self.trash@[k]
                != #[trigger] self.trash@[l]
    }

    /// Every node in use other than `skip` is well formed.
    pub open spec fn nodes_ok(&self, skip: int) -> bool {
        forall|x: usize| #[trigger] self.live@.contains(x) && x != skip ==> self.wf_node(x)
    }

    /// Every leaf in use is well formed, and no key lies in the range of two leaves.
    pub open spec fn leaves_ok(&self) -> bool {
        &&& forall|x: usize| #[trigger] self.live@.contains(x) && self.is_leaf(x) ==> self.leaf_ok(x)
        &&& forall|a: usize, b: usize, j: int|
            self.live@.contains(a) && self.live@.contains(b) && self.is_leaf(a) && self.is_leaf(b)
                && #[trigger] self.in_range(a, j) && #[trigger] self.in_range(b, j) ==> a == b
    }

    /// The leaves are chained in key order: every leaf in use ends within the key space and
    /// links to a leaf in use whose range starts where its own ends, and a leaf that links
    /// to none reaches the end of the key space.
    pub open spec fn linked(&self) -> bool {
        forall|x: usize|
            #[trigger] self.live@.contains(x) && self.is_leaf(x) ==> {
                &&& self.hi@[x] <= key_space_end()
                &&& match self.node(x)->Leaf_next {
                    None => self.hi@[x] == key_space_end(),
                    Some(y) => self.live@.contains(y) && self.is_leaf(y) && self.lo@[y] == self.hi@[x],
                }
            }
    }

    /// The tree is well formed and its root covers the whole key space.
    pub open spec fn wf(&self) -> bool {
        &&& self.arena_ok()
        &&& self.nodes_ok(-1)
        &&& self.leaves_ok()
        &&& self.linked()
        &&& self.lo@[self.root] == 0
        &&& self.hi@[self.root] == key_space_end()
    }

    /// Leaf `l` is in use and its entry `i` has key `k`.
    pub open spec fn has_entry(&self, l: usize, i: int, k: u16) -> bool {
        &&& self.live@.contains(l)
        &&& self.is_leaf(l)
        &&& 0 <= i < entries_of(self.node(l)).len()
        &&& entries_of(self.node(l))[i].record_id == k
    }

    /// Some leaf in use holds key `k` with page `v`.
    pub open spec fn holds(&self, k: u16, v: u64) -> bool {
        exists|l: usize, i: int| #[trigger] self.has_entry(l, i, k) && entries_of(self.node(l))[i].page_id == v
    }

    /// The map from record ids to page ids that the leaves in use hold.
    pub open spec fn view(&self) -> Map<u16, u64> {
        Map::new(
            |k: u16| exists|l: usize, i: int| #[trigger] self.has_entry(l, i, k),
            |k: u16|
                {
                    let (l, i) = choose|l: usize, i: int| #[trigger] self.has_entry(l, i, k);
                    entries_of(self.node(l))[i].page_id
                },
        )
    }
}

/// What a search for `j` answers on a tree whose map is `m`.
pub open spec fn search_result(m: Map<u16, u64>, j: u16) -> Result<u64, DbError> {
    if m.contains_key(j) {
        Ok(m[j])
    } else {
        Err(DbError::RecordAbsent)
    }
}

/// What the leaves hold is what the map says.
pub proof fn lemma_view_holds(t: &BPlusTree, k: u16, v: u64)
    requires
        t.leaves_ok(),
        t.holds(k, v),
    ensures
        t@.contains_key(k),
        t@[k] == v,
{
    let (l, i) = choose|l: usize, i: int| #[trigger] t.has_entry(l, i, k) && entries_of(t.node(l))[i].page_id == v;
    assert(t.has_entry(l, i, k));
    let (l2, i2) = choose|l2: usize, i2: int| #[trigger] t.has_entry(l2, i2, k);
    assert(t.leaf_ok(l) && t.leaf_ok(l2));
    assert(t.in_range(l, k as int) && t.in_range(l2, k as int));
    assert(l == l2);
    let es = entries_of(t.node(l));
    if i != i2 {
        assert(ekeys(es)[i] == es[i].record_id && ekeys(es)[i2] == es[i2].record_id);
    }
}

/// A key in the map is held with the page the map gives.
pub proof fn lemma_view_key(t: &BPlusTree, k: u16)
    requires
        t@.contains_key(k),
    ensures
        t.holds(k, t@[k]),
{
    let (l, i) = choose|l: usize, i: int| #[trigger] t.has_entry(l, i, k);
    assert(t.has_entry(l, i, k));
}

/// Two trees whose leaves hold the same pairs have the same map.
pub proof fn lemma_view_same(a: &BPlusTree, b: &BPlusTree)
    requires
        a.leaves_ok(),
        b.leaves_ok(),
        forall|k: u16, v: u64| #[trigger] b.holds(k, v) <==> a.holds(k, v),
    ensures
        b@ == a@,
{
    assert forall|k: u16| #[trigger] b@.contains_key(k) <==> a@.contains_key(k) by {
        if a@.contains_key(k) {
            lemma_view_key(a, k);
            assert(b.holds(k, a@[k]));
            lemma_view_holds(b, k, a@[k]);
        }
        if b@.contains_key(k) {
            lemma_view_key(b, k);
            assert(a.holds(k, b@[k]));
            lemma_view_holds(a, k, b@[k]);
        }
    }
    assert forall|k: u16| #[trigger] b@.contains_key(k) implies b@[k] == a@[k] by {
        lemma_view_key(b, k);
        assert(a.holds(k, b@[k]));
        lemma_view_holds(a, k, b@[k]);
    }
    assert(b@ =~= a@);
}

/// A tree whose leaves hold one pair more than another's has that pair added to its map.
pub proof fn lemma_view_insert(a: &BPlusTree, b: &BPlusTree, j: u16, p: u64)
    requires
        a.leaves_ok(),
        b.leaves_ok(),
        forall|k: u16, v: u64| #[trigger] b.holds(k, v) <==> ((k == j && v == p) || (k != j && a.holds(k, v))),
    ensures
        b@ == a@.insert(j, p),
{
    let c = a@.insert(j, p);
    assert(b.holds(j, p));
    lemma_view_holds(b, j, p);
    assert forall|k: u16| #[trigger] b@.contains_key(k) <==> c.contains_key(k) by {
        if k != j {
            if a@.contains_key(k) {
                lemma_view_key(a, k);
                assert(b.holds(k, a@[k]));
                lemma_view_holds(b, k, a@[k]);
            }
            if b@.contains_key(k) {
                lemma_view_key(b, k);
                assert(a.holds(k, b@[k]));
                lemma_view_holds(a, k, b@[k]);
            }
        }
    }
    assert forall|k: u16| #[trigger] b@.contains_key(k) implies b@[k] == c[k] by {
        if k != j {
            lemma_view_key(b, k);
            assert(a.holds(k, b@[k]));
            lemma_view_holds(a, k, b@[k]);
        }
    }
    assert(b@ =~= c);
}

/// A tree whose leaves hold the pairs of another but those with key `j` has `j` removed
/// from its map.
pub proof fn lemma_view_remove(a: &BPlusTree, b: &BPlusTree, j: u16)
    requires
        a.leaves_ok(),
        b.leaves_ok(),
        forall|k: u16, v: u64| #[trigger] b.holds(k, v) <==> (k != j && a.holds(k, v)),
    ensures
        b@ == a@.remove(j),
{
    let c = a@.remove(j);
    assert forall|k: u16| #[trigger] b@.contains_key(k) <==> c.contains_key(k) by {
        if b@.contains_key(k) {
            lemma_view_key(b, k);
            assert(a.holds(k, b@[k]));
            lemma_view_holds(a, k, b@[k]);
        }
        if k != j && a@.contains_key(k) {
            lemma_view_key(a, k);
            assert(b.holds(k, a@[k]));
            lemma_view_holds(b, k, a@[k]);
        }
    }
    assert forall|k: u16| #[trigger] b@.contains_key(k) implies b@[k] == c[k] by {
        lemma_view_key(b, k);
        assert(a.holds(k, b@[k]));
        lemma_view_holds(a, k, b@[k]);
    }
    assert(b@ =~= c);
}


impl BPlusTree {
    /// An empty tree: a single empty leaf as the root.
    pub fn new() -> (t: Self)
        ensures
            t.wf(),
            t@ == Map::<u16, u64>::empty(),
            t.m == MAX_SIZE,
            t.root == 0,
            t.nodes@.len() == 1,
            t.is_leaf(0),
            entries_of(t.node(0)).len() == 0,
            t.node(0)->Leaf_next is None,
            t.trash@.len() == 0,
    {
        let root: usize = 0;
        let mut nodes: Vec<Node> = Vec::new();
        nodes.push(Node::Leaf { entries: Vec::new(), next: None });
        let trash: Vec<usize> = Vec::new();
        let m = MAX_SIZE;
        let t = Self {
            root,
            nodes,
            trash,
            m,
            live: Ghost(Set::empty().insert(0)),
            height: Ghost(Map::empty().insert(0, 0)),
            lo: Ghost(Map::empty().insert(0, 0)),
            hi: Ghost(Map::empty().insert(0, key_space_end())),
            parent: Ghost(Map::empty().insert(0, 0)),
        };
        proof {
            assert(t.wf_node(0));
            assert(t@ =~= Map::<u16, u64>::empty());
        }
        t
    }

    /// The page that holds record `record_id`, or `RecordAbsent`.
    pub fn search(&self, record_id: u16) -> (res: Result<u64, DbError>)
        requires
            self.wf(),
        ensures
            res == search_result(self@, record_id),
    {
        let mut curr: usize = self.root;
        loop
            invariant
                self.wf(),
                self.live@.contains(curr),
                self.in_range(curr, record_id as int),
            decreases self.height@[curr],
        {
            proof {
                assert(self.wf_node(curr));
            }
            match &self.nodes[curr] {
                Node::Internal { keys, children } => {
                    let idx = partition_point(keys, record_id);
                    proof {
                        lemma_pp(keys@, record_id as int);
                        let ch = children@[idx as int];
                        assert(self.live@.contains(ch));
                    }
                    curr = children[idx];
                },
                Node::Leaf { entries, .. } => {
                    return match search_entries(entries, record_id) {
                        Ok(pos) => {
                            proof {
                                assert(self.has_entry(curr, pos as int, record_id));
                                lemma_view_holds(self, record_id, entries@[pos as int].page_id);
                            }
                            Ok(entries[pos].page_id)
                        },
                        Err(_) => {
                            proof {
                                if self@.contains_key(record_id) {
                                    let (l, i) = choose|l: usize, i: int| #[trigger] self.has_entry(l, i, record_id);
                                    assert(self.leaf_ok(l));
                                    assert(self.in_range(l, record_id as int));
                                    assert(l == curr);
                                }
                            }
                            Err(DbError::RecordAbsent)
                        },
                    };
                },
            }
        }
    }

    /// Fewest keys a node other than the root should keep.
    fn min_size(&self) -> (r: usize)
        ensures
            r == self.m / 2,
    {
        self.m / 2
    }

    /// Places `node` in the arena, reusing a trashed slot if there is one, and returns its
    /// index: one that is not in use.
    fn push_node(&mut self, node: Node) -> (id: usize)
        requires
            old(self).arena_ok(),
        ensures
            !old(self).live@.contains(id),
            id == fresh_id(&*old(self)),
            final(self).nodes@.len() == (if old(self).trash@.len() > 0 {
                old(self).nodes@.len()
            } else {
                old(self).nodes@.len() + 1
            }),
            final(self).trash@ == (if old(self).trash@.len() > 0 {
                old(self).trash@.drop_last()
            } else {
                old(self).trash@
            }),
            id < final(self).nodes@.len(),
            final(self).nodes@.len() >= old(self).nodes@.len(),
            final(self).nodes@[id as int] == node,
            forall|x: int| 0 <= x < old(self).nodes@.len() && x != id ==> final(self).nodes@[x] == old(self).nodes@[x],
            forall|k: int| 0 <= k < final(self).trash@.len() ==> #[trigger] final(self).trash@[k] != id,
            final(self).trash@.len() <= old(self).trash@.len(),
            forall|k: int| 0 <= k < final(self).trash@.len() ==> #[trigger] final(self).trash@[k] == old(self).trash@[k],
            final(self).root == old(self).root,
            final(self).m == old(self).m,
            final(self).live == old(self).live,
            final(self).height == old(self).height,
            final(self).lo == old(self).lo,
            final(self).hi == old(self).hi,
            final(self).parent == old(self).parent,
    {
        if let Some(id) = self.trash.pop() {
            proof {
                assert(old(self).trash@[old(self).trash@.len() - 1] == id);
            }
            self.nodes[id] = node;
            id
        } else {
            self.nodes.push(node);
            self.nodes.len() - 1
        }
    }

    /// Takes node `n` out of the arena, leaving an empty leaf in its place.
    fn take_node(&mut self, n: usize) -> (node: Node)
        requires
            n < old(self).nodes@.len(),
        ensures
            node == old(self).nodes@[n as int],
            final(self).nodes@.len() == old(self).nodes@.len(),
            forall|x: int| 0 <= x < old(self).nodes@.len() && x != n ==> final(self).nodes@[x] == old(self).nodes@[x],
            final(self).trash == old(self).trash,
            final(self).root == old(self).root,
            final(self).m == old(self).m,
            final(self).live == old(self).live,
            final(self).height == old(self).height,
            final(self).lo == old(self).lo,
            final(self).hi == old(self).hi,
            final(self).parent == old(self).parent,
    {
        let mut node = Node::Leaf { entries: Vec::new(), next: None };
        std::mem::swap(&mut self.nodes[n], &mut node);
        node
    }
}

/// The index the next node placed in the arena of `t` gets: the last trashed slot if there
/// is one, else a new slot at the end.
pub open spec fn fresh_id(t: &BPlusTree) -> usize {
    if t.trash@.len() > 0 {
        t.trash@.last()
    } else {
        t.nodes@.len() as usize
    }
}

/// The arena of `f` is that of `o` with one node placed at `fresh_id(o)`, the trash giving
/// up the slot it used; every node other than that one and `a` is unchanged.
pub open spec fn placed_one(o: &BPlusTree, f: &BPlusTree, a: usize) -> bool {
    let q = fresh_id(o);
    &&& f.nodes@.len() == (if o.trash@.len() > 0 {
        o.nodes@.len()
    } else {
        o.nodes@.len() + 1
    })
    &&& f.trash@ == (if o.trash@.len() > 0 {
        o.trash@.drop_last()
    } else {
        o.trash@
    })
    &&& forall|x: int| 0 <= x < o.nodes@.len() && x != a && x != q ==> #[trigger] f.nodes@[x] == o.nodes@[x]
    &&& f.root == o.root
}

/// Only node `a` of `o` changed in `f`; the arena, its trash and the root are as they were.
pub open spec fn changed_one(o: &BPlusTree, f: &BPlusTree, a: usize) -> bool {
    &&& f.nodes@.len() == o.nodes@.len()
    &&& f.trash == o.trash
    &&& f.root == o.root
    &&& forall|x: int| 0 <= x < o.nodes@.len() && x != a ==> #[trigger] f.nodes@[x] == o.nodes@[x]
}

/// Splitting leaf `l` of `o`, whose entries are then `es` and whose link is `next`, gives
/// `f`: `l` keeps the first `es.len() / 2` entries and links to a new leaf placed at
/// `fresh_id(o)`, which holds the rest and takes over the link; the new leaf's first key
/// goes up with it.
pub open spec fn leaf_split_of(
    o: &BPlusTree,
    f: &BPlusTree,
    l: usize,
    es: Seq<Entry>,
    next: Option<usize>,
    r: (u16, usize),
) -> bool {
    let mid = es.len() / 2;
    let q = fresh_id(o);
    &&& r == (es[mid as int].record_id, q)
    &&& placed_one(o, f, l)
    &&& f.is_leaf(l)
    &&& f.is_leaf(q)
    &&& entries_of(f.node(l)) == es.subrange(0, mid as int)
    &&& f.node(l)->Leaf_next == Some(q)
    &&& entries_of(f.node(q)) == es.subrange(mid as int, es.len() as int)
    &&& f.node(q)->Leaf_next == next
}

/// Splitting internal node `n` of `o`, whose keys and children are then `ks` and `cs`,
/// gives `f`: the middle key (`ks.len() / 2`) goes up; `n` keeps the keys before it and
/// the children up to it, and a new node placed at `fresh_id(o)` takes the keys after it
/// and the remaining children.
pub open spec fn internal_split_of(
    o: &BPlusTree,
    f: &BPlusTree,
    n: usize,
    ks: Seq<u16>,
    cs: Seq<usize>,
    r: (u16, usize),
) -> bool {
    let mid = (ks.len() / 2) as int;
    let q = fresh_id(o);
    &&& r == (ks[mid], q)
    &&& placed_one(o, f, n)
    &&& !f.is_leaf(n)
    &&& !f.is_leaf(q)
    &&& keys_of(f.node(n)) == ks.subrange(0, mid)
    &&& children_of(f.node(n)) == cs.subrange(0, mid + 1)
    &&& keys_of(f.node(q)) == ks.subrange(mid + 1, ks.len() as int)
    &&& children_of(f.node(q)) == cs.subrange(mid + 1, cs.len() as int)
}

/// Putting `(j, p)` into leaf `l` of `o` gives `f` and the split `r`: the entry goes in key
/// order; a leaf that reaches `m` entries splits as `leaf_split_of` says.
pub open spec fn leaf_layout(o: &BPlusTree, f: &BPlusTree, l: usize, j: u16, p: u64, r: Option<(u16, usize)>) -> bool {
    let es = entries_of(o.node(l));
    let es2 = es.insert(pp(ekeys(es), j as int), Entry { record_id: j, page_id: p });
    if es2.len() < o.m {
        &&& r is None
        &&& changed_one(o, f, l)
        &&& f.is_leaf(l)
        &&& entries_of(f.node(l)) == es2
        &&& f.node(l)->Leaf_next == o.node(l)->Leaf_next
    } else {
        r matches Some(rr) && leaf_split_of(o, f, l, es2, o.node(l)->Leaf_next, rr)
    }
}

/// Recording in internal node `n` of `o` that its child `idx` split at `sep`, the new child
/// being `q`, gives `f` and the split `r`: `sep` becomes key `idx` and `q` child `idx + 1`;
/// a node that reaches `m` keys splits as `internal_split_of` says.
pub open spec fn internal_layout(
    o: &BPlusTree,
    f: &BPlusTree,
    n: usize,
    idx: int,
    sep: u16,
    q: usize,
    r: Option<(u16, usize)>,
) -> bool {
    let ks = keys_of(o.node(n)).insert(idx, sep);
    let cs = children_of(o.node(n)).insert(idx + 1, q);
    if ks.len() < o.m {
        &&& r is None
        &&& changed_one(o, f, n)
        &&& !f.is_leaf(n)
        &&& keys_of(f.node(n)) == ks
        &&& children_of(f.node(n)) == cs
    } else {
        r matches Some(rr) && internal_split_of(o, f, n, ks, cs, rr)
    }
}

/// How internal node `n` of `s` takes the split `rc` of its child `idx`, giving `f` and the
/// split `r` of `n`: nothing changes without a split; else as `internal_layout` says.
pub open spec fn after_child(
    s: &BPlusTree,
    f: &BPlusTree,
    n: usize,
    idx: int,
    rc: Option<(u16, usize)>,
    r: Option<(u16, usize)>,
) -> bool {
    match rc {
        None => *f == *s && r is None,
        Some((sep, q)) => internal_layout(s, f, n, idx, sep, q, r),
    }
}

/// What inserting `(j, p)` below node `n` of `o` makes of it, giving `f` and the split `r`
/// of `n`: into a leaf as `leaf_layout` says; into an internal node, below the child for
/// `j`, and then, if that child split, into `n` as `internal_layout` says.
pub open spec fn ins_layout(o: BPlusTree, f: BPlusTree, n: usize, j: u16, p: u64, r: Option<(u16, usize)>) -> bool
    decreases o.height@[n],
{
    if o.is_leaf(n) {
        leaf_layout(&o, &f, n, j, p, r)
    } else {
        let idx = pp(keys_of(o.node(n)), j as int);
        let c = children_of(o.node(n))[idx];
        if o.height@[c] < o.height@[n] {
            exists|s: BPlusTree, rc: Option<(u16, usize)>|
                #[trigger] after_child(&s, &f, n, idx, rc, r) && ins_layout(o, s, c, j, p, rc)
        } else {
            false
        }
    }
}

/// One level of `ins_layout` at internal node `n`: the insertion went below the child
/// for `j`, giving `s` and that child's split `rc`, and `f` follows from `s` as `ins_layout`
/// says.
pub proof fn lemma_ins_layout_step(
    o: BPlusTree,
    s: BPlusTree,
    f: BPlusTree,
    n: usize,
    j: u16,
    p: u64,
    rc: Option<(u16, usize)>,
    r: Option<(u16, usize)>,
)
    requires
        !o.is_leaf(n),
        o.height@[children_of(o.node(n))[pp(keys_of(o.node(n)), j as int)]] < o.height@[n],
        ins_layout(o, s, children_of(o.node(n))[pp(keys_of(o.node(n)), j as int)], j, p, rc),
        after_child(&s, &f, n, pp(keys_of(o.node(n)), j as int), rc, r),
    ensures
        ins_layout(o, f, n, j, p, r),
{
    let idx = pp(keys_of(o.node(n)), j as int);
    let c = children_of(o.node(n))[idx];
    assert(after_child(&s, &f, n, idx, rc, r) && ins_layout(o, s, c, j, p, rc));
}

/// A split that reached the root of `s` at `sep`, with new node `q`, gives the root of `f`:
/// a new internal node placed at `fresh_id(s)` with the one key `sep` and the children
/// `s.root` and `q`.
pub open spec fn root_grown(s: &BPlusTree, f: &BPlusTree, sep: u16, q: usize) -> bool {
    let t = fresh_id(s);
    &&& f.root == t
    &&& f.nodes@.len() == (if s.trash@.len() > 0 {
        s.nodes@.len()
    } else {
        s.nodes@.len() + 1
    })
    &&& f.trash@ == (if s.trash@.len() > 0 {
        s.trash@.drop_last()
    } else {
        s.trash@
    })
    &&& forall|x: int| 0 <= x < s.nodes@.len() && x != t ==> #[trigger] f.nodes@[x] == s.nodes@[x]
    &&& !f.is_leaf(t)
    &&& keys_of(f.node(t)) == seq![sep]
    &&& children_of(f.node(t)) == seq![s.root, q]
}

/// How the tree `f` left by an insertion below node `n` relates to the tree `o` before it:
/// nodes in use stay in use at their heights; nodes at `n`'s height or above keep their
/// parents and ranges (but for `n`'s upper end), and those above it keep their contents.
/// With `None`, `n` keeps its range and every node is well formed; with `Some((sep, q))`,
/// `n` was split at `sep` and the new node `q`, which no node lists as a child yet, covers
/// the upper part; every node but `n`'s parent is well formed.
pub open spec fn grown(o: &BPlusTree, f: &BPlusTree, n: usize, r: Option<(u16, usize)>) -> bool {
    &&& f.root == o.root
    &&& f.m == o.m
    &&& f.arena_ok()
    &&& f.leaves_ok()
    &&& f.linked()
    &&& forall|x: usize| #[trigger] o.live@.contains(x) ==> f.live@.contains(x)
    &&& forall|x: usize| #[trigger] o.live@.contains(x) ==> f.height@[x] == o.height@[x]
    &&& forall|x: usize|
        #[trigger] o.live@.contains(x) && o.height@[x] >= o.height@[n] ==> {
            &&& f.parent@[x] == o.parent@[x]
            &&& f.lo@[x] == o.lo@[x]
            &&& (x != n ==> f.hi@[x] == o.hi@[x])
        }
    &&& forall|x: usize|
        #[trigger] o.live@.contains(x) && o.height@[x] > o.height@[n] ==> f.nodes@[x as int] == o.nodes@[x as int]
    &&& match r {
        None => f.hi@[n] == o.hi@[n] && f.nodes_ok(-1),
        Some((sep, q)) => {
            &&& o.lo@[n] < sep < o.hi@[n]
            &&& f.hi@[n] == sep
            &&& f.lo@[q] == sep
            &&& f.hi@[q] == o.hi@[n]
            &&& f.live@.contains(q)
            &&& !o.live@.contains(q)
            &&& f.height@[q] == o.height@[n]
            &&& f.parent@[q] == o.parent@[n]
            &&& forall|x: usize|
                #[trigger] f.live@.contains(x) && !f.is_leaf(x) ==> !children_of(f.node(x)).contains(q)
            &&& f.nodes_ok(if n == o.root { -1 } else { o.parent@[n] as int })
        },
    }
}

impl BPlusTree {
    /// Splits leaf `leaf_id` in two halves; the upper half goes to a new leaf that follows
    /// it. Returns the first key of the new leaf and the new leaf's index.
    fn split_leaf(&mut self, leaf_id: usize) -> (r: (u16, usize))
        requires
            old(self).arena_ok(),
            old(self).nodes_ok(-1),
            old(self).leaves_ok(),
            old(self).linked(),
            old(self).live@.contains(leaf_id),
            old(self).is_leaf(leaf_id),
            entries_of(old(self).node(leaf_id)).len() >= 2,
        ensures
            grown(&*old(self), &*final(self), leaf_id, Some(r)),
            final(self)@ == old(self)@,
            leaf_split_of(
                &*old(self),
                &*final(self),
                leaf_id,
                entries_of(old(self).node(leaf_id)),
                old(self).node(leaf_id)->Leaf_next,
                r,
            ),
    {
        let node = self.take_node(leaf_id);
        let (mut entries, next) = leaf_parts(node);
        let ghost es = entries@;
        let mid = entries.len() / 2;
        let right_entries = entries.split_off(mid);
        let sep_key = right_entries[0].record_id;
        let new_id = self.push_node(Node::Leaf { entries: right_entries, next });
        self.nodes[leaf_id] = Node::Leaf { entries, next: Some(new_id) };
        let ghost old_hi = self.hi@[leaf_id];
        self.live = Ghost(self.live@.insert(new_id));
        self.height = Ghost(self.height@.insert(new_id, 0));
        self.lo = Ghost(self.lo@.insert(new_id, sep_key as int));
        self.hi = Ghost(self.hi@.insert(leaf_id, sep_key as int).insert(new_id, old_hi));
        self.parent = Ghost(self.parent@.insert(new_id, self.parent@[leaf_id]));
        proof {
            let o = *old(self);
            let f = *self;
            let skip: int = if leaf_id == o.root { -1 } else { o.parent@[leaf_id] as int };
            assert(o.leaf_ok(leaf_id));
            assert(ekeys(es)[0] == es[0].record_id && ekeys(es)[mid as int] == es[mid as int].record_id);
            assert(o.in_range(leaf_id, es[0].record_id as int));
            assert(o.in_range(leaf_id, es[mid as int].record_id as int));
            assert(entries_of(f.node(leaf_id)) == es.subrange(0, mid as int));
            assert(entries_of(f.node(new_id)) == es.subrange(mid as int, es.len() as int));
            assert(ekeys(es.subrange(0, mid as int)) =~= ekeys(es).subrange(0, mid as int));
            assert(ekeys(es.subrange(mid as int, es.len() as int)) =~= ekeys(es).subrange(mid as int, es.len() as int));
            assert forall|i: int| 0 <= i < es.len() implies (i < mid ==> es[i].record_id < sep_key) && (i >= mid
                ==> es[i].record_id >= sep_key) by {
                assert(ekeys(es)[i] == es[i].record_id);
            }
            assert(f.leaf_ok(leaf_id));
            assert(f.leaf_ok(new_id));
            assert forall|x: usize| #[trigger] f.live@.contains(x) && f.is_leaf(x) implies f.leaf_ok(x) by {
                if x != leaf_id && x != new_id {
                    assert(o.leaf_ok(x));
                }
            }
            assert forall|a: usize, b: usize, j: int|
                f.live@.contains(a) && f.live@.contains(b) && f.is_leaf(a) && f.is_leaf(b)
                    && #[trigger] f.in_range(a, j) && #[trigger] f.in_range(b, j) implies a == b by {
                let a0 = if a == new_id { leaf_id } else { a };
                let b0 = if b == new_id { leaf_id } else { b };
                assert(o.in_range(a0, j) && o.in_range(b0, j));
            }
            assert forall|x: usize| #[trigger] f.live@.contains(x) && x != skip implies f.wf_node(x) by {
                if x != leaf_id && x != new_id {
                    assert(o.wf_node(x));
                    if !f.is_leaf(x) {
                        let ch = children_of(f.node(x));
                        assert forall|c: int| 0 <= c < ch.len() implies #[trigger] ch[c] != leaf_id
                            && ch[c] != new_id by {
                            if ch[c] == leaf_id {
                                assert(o.parent@[leaf_id] == x);
                            }
                        }
                    }
                }
            }
            assert forall|x: usize| #[trigger] f.live@.contains(x) && !f.is_leaf(x) implies !children_of(
                f.node(x),
            ).contains(new_id) by {
                assert(x != new_id && x != leaf_id);
                assert(o.wf_node(x));
                if children_of(f.node(x)).contains(new_id) {
                    let c = choose|c: int| 0 <= c < children_of(f.node(x)).len() && children_of(f.node(x))[c] == new_id;
                    assert(o.live@.contains(children_of(o.node(x))[c]));
                }
            }
            assert forall|k: u16, v: u64| #[trigger] f.holds(k, v) <==> o.holds(k, v) by {
                if f.holds(k, v) {
                    let (l, i) = choose|l: usize, i: int| #[trigger] f.has_entry(l, i, k) && entries_of(f.node(l))[i].page_id == v;
                    if l == new_id {
                        assert(o.has_entry(leaf_id, i + mid, k));
                    } else {
                        assert(o.has_entry(l, i, k));
                    }
                }
                if o.holds(k, v) {
                    let (l, i) = choose|l: usize, i: int| #[trigger] o.has_entry(l, i, k) && entries_of(o.node(l))[i].page_id == v;
                    if l == leaf_id && i >= mid {
                        assert(f.has_entry(new_id, i - mid, k));
                    } else {
                        assert(f.has_entry(l, i, k));
                    }
                }
            }
            lemma_view_same(&o, &f);
        }
        (sep_key, new_id)
    }
}

impl BPlusTree {
    /// Splits internal node `node_id` around its middle key, which moves up: the keys and
    /// children after it go to a new node. Returns the middle key and the new node's index.
    #[verifier::rlimit(80)]
    fn split_internal(&mut self, node_id: usize) -> (r: (u16, usize))
        requires
            old(self).arena_ok(),
            old(self).nodes_ok(-1),
            old(self).leaves_ok(),
            old(self).linked(),
            old(self).live@.contains(node_id),
            !old(self).is_leaf(node_id),
            keys_of(old(self).node(node_id)).len() >= 2,
        ensures
            grown(&*old(self), &*final(self), node_id, Some(r)),
            final(self)@ == old(self)@,
            internal_split_of(
                &*old(self),
                &*final(self),
                node_id,
                keys_of(old(self).node(node_id)),
                children_of(old(self).node(node_id)),
                r,
            ),
    {
        let node = self.take_node(node_id);
        let (mut keys, mut children) = internal_parts(node);
        let ghost ks = keys@;
        let ghost cs = children@;
        let mid = keys.len() / 2;
        let mid_key = keys[mid];
        let right_keys = keys.split_off(mid + 1);
        keys.pop();
        let right_children = children.split_off(mid + 1);
        let ghost rc = right_children@;
        let new_id = self.push_node(Node::Internal { keys: right_keys, children: right_children });
        self.nodes[node_id] = Node::Internal { keys, children };
        let ghost old_hi = self.hi@[node_id];
        let ghost h = self.height@[node_id];
        let ghost par = self.parent@;
        self.live = Ghost(self.live@.insert(new_id));
        self.height = Ghost(self.height@.insert(new_id, h));
        self.lo = Ghost(self.lo@.insert(new_id, mid_key as int));
        self.hi = Ghost(self.hi@.insert(node_id, mid_key as int).insert(new_id, old_hi));
        self.parent = Ghost(
            Map::new(
                |x: usize| true,
                |x: usize|
                    if x == new_id {
                        par[node_id]
                    } else if rc.contains(x) {
                        new_id
                    } else {
                        par[x]
                    },
            ),
        );
        proof {
            let o = *old(self);
            let f = *self;
            let skip: int = if node_id == o.root { -1 } else { o.parent@[node_id] as int };
            assert(o.wf_node(node_id));
            assert(o.in_range(node_id, ks[mid as int] as int));
            assert(o.in_range(node_id, ks[0] as int));
            assert(ks[0] < ks[mid as int]);
            assert(keys_of(f.node(node_id)) =~= ks.subrange(0, mid as int));
            assert(children_of(f.node(node_id)) =~= cs.subrange(0, mid + 1));
            assert(keys_of(f.node(new_id)) =~= ks.subrange(mid + 1, ks.len() as int));
            assert(children_of(f.node(new_id)) =~= cs.subrange(mid + 1, cs.len() as int));
            assert(rc =~= cs.subrange(mid + 1, cs.len() as int));
            // children that stay and children that move are apart
            assert forall|c: int| 0 <= c < cs.len() implies (rc.contains(#[trigger] cs[c]) <==> c > mid) by {
                if c > mid {
                    assert(rc[c - mid - 1] == cs[c]);
                }
                if rc.contains(cs[c]) {
                    let d = choose|d: int| 0 <= d < rc.len() && rc[d] == cs[c];
                    assert(cs[d + mid + 1] == cs[c]);
                }
            }
            assert forall|x: usize| rc.contains(x) implies o.live@.contains(x) && o.parent@[x] == node_id
                && x != node_id && x != new_id by {
                let d = choose|d: int| 0 <= d < rc.len() && rc[d] == x;
                assert(cs[d + mid + 1] == x);
            }
            assert(f.wf_node(node_id)) by {
                let ks2 = keys_of(f.node(node_id));
                let cs2 = children_of(f.node(node_id));
                assert forall|c: int| 0 <= c < cs2.len() implies {
                    let ch = #[trigger] cs2[c];
                    &&& f.live@.contains(ch)
                    &&& ch != f.root
                    &&& f.parent@[ch] == node_id
                    &&& f.height@[ch] + 1 == f.height@[node_id]
                    &&& f.lo@[ch] == f.child_lo(node_id, ks2, c)
                    &&& f.hi@[ch] == f.child_hi(node_id, ks2, c)
                } by {
                    assert(cs2[c] == cs[c]);
                    assert(!rc.contains(cs[c]));
                }
            }
            assert(f.wf_node(new_id)) by {
                let ks2 = keys_of(f.node(new_id));
                let cs2 = children_of(f.node(new_id));
                assert forall|i: int| 0 <= i < ks2.len() implies f.in_range(new_id, #[trigger] ks2[i] as int) by {
                    assert(ks2[i] == ks[i + mid + 1]);
                    assert(o.in_range(node_id, ks[i + mid + 1] as int));
                }
                assert forall|c: int| 0 <= c < cs2.len() implies {
                    let ch = #[trigger] cs2[c];
                    &&& f.live@.contains(ch)
                    &&& ch != f.root
                    &&& f.parent@[ch] == new_id
                    &&& f.height@[ch] + 1 == f.height@[new_id]
                    &&& f.lo@[ch] == f.child_lo(new_id, ks2, c)
                    &&& f.hi@[ch] == f.child_hi(new_id, ks2, c)
                } by {
                    assert(cs2[c] == cs[c + mid + 1]);
                    assert(rc.contains(cs[c + mid + 1]));
                }
            }
            assert forall|x: usize| #[trigger] f.live@.contains(x) && f.is_leaf(x) implies f.leaf_ok(x) by {
                assert(o.leaf_ok(x));
            }
            assert forall|a: usize, b: usize, j: int|
                f.live@.contains(a) && f.live@.contains(b) && f.is_leaf(a) && f.is_leaf(b)
                    && #[trigger] f.in_range(a, j) && #[trigger] f.in_range(b, j) implies a == b by {
                assert(o.in_range(a, j) && o.in_range(b, j));
            }
            assert forall|x: usize| #[trigger] f.live@.contains(x) && x != skip implies f.wf_node(x) by {
                if x != node_id && x != new_id {
                    assert(o.wf_node(x));
                    assert(!rc.contains(x) ==> f.parent@[x] == o.parent@[x]);
                    if !f.is_leaf(x) {
                        let ch = children_of(f.node(x));
                        assert forall|c: int| 0 <= c < ch.len() implies #[trigger] ch[c] != node_id && !rc.contains(
                            ch[c],
                        ) && ch[c] != new_id by {
                            if ch[c] == node_id {
                                assert(o.parent@[node_id] == x);
                            }
                            if rc.contains(ch[c]) {
                                assert(o.parent@[ch[c]] == node_id);
                            }
                        }
                    }
                }
            }
            assert forall|x: usize| #[trigger] f.live@.contains(x) && !f.is_leaf(x) implies !children_of(
                f.node(x),
            ).contains(new_id) by {
                if children_of(f.node(x)).contains(new_id) {
                    let c = choose|c: int| 0 <= c < children_of(f.node(x)).len() && children_of(f.node(x))[c] == new_id;
                    if x == node_id {
                        assert(o.live@.contains(cs[c]));
                    } else if x == new_id {
                        assert(o.live@.contains(cs[c + mid + 1]));
                    } else {
                        assert(o.wf_node(x));
                        assert(o.live@.contains(children_of(o.node(x))[c]));
                    }
                }
            }
            assert forall|x: usize| #[trigger] o.live@.contains(x) && o.height@[x] >= o.height@[node_id] implies f.parent@[x]
                == o.parent@[x] by {
                if rc.contains(x) {
                    assert(o.height@[x] + 1 == o.height@[node_id]) by {
                        let d = choose|d: int| 0 <= d < rc.len() && rc[d] == x;
                        assert(cs[d + mid + 1] == x);
                    }
                }
            }
            assert forall|k: u16, v: u64| #[trigger] f.holds(k, v) <==> o.holds(k, v) by {
                if f.holds(k, v) {
                    let (l, i) = choose|l: usize, i: int| #[trigger] f.has_entry(l, i, k) && entries_of(f.node(l))[i].page_id == v;
                    assert(o.has_entry(l, i, k));
                }
                if o.holds(k, v) {
                    let (l, i) = choose|l: usize, i: int| #[trigger] o.has_entry(l, i, k) && entries_of(o.node(l))[i].page_id == v;
                    assert(f.has_entry(l, i, k));
                }
            }
            lemma_view_same(&o, &f);
            assert(f.arena_ok());
            assert(f.leaves_ok());
            assert(forall|x: usize| #[trigger] o.live@.contains(x) ==> f.live@.contains(x));
            assert(forall|x: usize| #[trigger] o.live@.contains(x) ==> f.height@[x] == o.height@[x]);
            assert(forall|x: usize|
        #[trigger] o.live@.contains(x) && o.height@[x] >= o.height@[node_id] ==> {
            &&& f.parent@[x] == o.parent@[x]
            &&& f.lo@[x] == o.lo@[x]
            &&& (x != node_id ==> f.hi@[x] == o.hi@[x])
        });
            assert(forall|x: usize|
        #[trigger] o.live@.contains(x) && o.height@[x] > o.height@[node_id] ==> f.nodes@[x as int] == o.nodes@[x as int]);
            assert(o.lo@[node_id] < mid_key < o.hi@[node_id]);
            assert(f.parent@[new_id] == o.parent@[node_id]);
            assert(f.nodes_ok(skip));
        }
        (mid_key, new_id)
    }
}

/// What inserting `j` with page `p` below node `n` promises: `DuplicateKey`, with nothing
/// changed, exactly when the tree already maps `j`; otherwise the map gains `j` and the
/// tree grows as `grown` says.
pub open spec fn inserted(
    o: &BPlusTree,
    f: &BPlusTree,
    n: usize,
    j: u16,
    p: u64,
    res: Result<Option<(u16, usize)>, DbError>,
) -> bool {
    &&& (res is Err <==> o@.contains_key(j))
    &&& match res {
        Err(e) => e == DbError::DuplicateKey && *f == *o,
        Ok(r) => f@ == o@.insert(j, p) && grown(o, f, n, r),
    }
}

/// A well-formed arena has grown from itself.
pub proof fn lemma_grown_refl(s: &BPlusTree, n: usize)
    requires
        s.arena_ok(),
        s.leaves_ok(),
        s.linked(),
        s.nodes_ok(-1),
    ensures
        grown(s, s, n, None),
{
}

/// Growth below `c`, then growth below `n` at or above it, is growth below `n`.
pub proof fn lemma_grown_compose(
    o: &BPlusTree,
    s: &BPlusTree,
    f: &BPlusTree,
    c: usize,
    n: usize,
    r1: Option<(u16, usize)>,
    r: Option<(u16, usize)>,
)
    requires
        o.live@.contains(c),
        o.live@.contains(n),
        c == n || o.height@[c] < o.height@[n],
        c == n ==> r1 is None,
        grown(o, s, c, r1),
        grown(s, f, n, r),
    ensures
        grown(o, f, n, r),
{
    assert(s.live@.contains(n));
    assert(s.height@[n] == o.height@[n]);
    assert(s.lo@[n] == o.lo@[n] && s.hi@[n] == o.hi@[n] && s.parent@[n] == o.parent@[n]);
    assert forall|x: usize| #[trigger] o.live@.contains(x) && o.height@[x] >= o.height@[n] implies {
        &&& f.parent@[x] == o.parent@[x]
        &&& f.lo@[x] == o.lo@[x]
        &&& (x != n ==> f.hi@[x] == o.hi@[x])
    } by {
        assert(s.live@.contains(x));
    }
    assert forall|x: usize| #[trigger] o.live@.contains(x) && o.height@[x] > o.height@[n] implies f.nodes@[x as int]
        == o.nodes@[x as int] by {
        assert(s.live@.contains(x));
    }
    assert forall|x: usize| #[trigger] o.live@.contains(x) implies f.live@.contains(x) && f.height@[x] == o.height@[x] by {
        assert(s.live@.contains(x));
    }
}

impl BPlusTree {
    /// Inserts `(record_id, page_id)` into leaf `leaf_id`, splitting the leaf once it
    /// reaches `m` entries. `DuplicateKey` if the key is there already.
    fn insert_into_leaf(&mut self, leaf_id: usize, record_id: u16, page_id: u64) -> (res: Result<
        Option<(u16, usize)>,
        DbError,
    >)
        requires
            old(self).arena_ok(),
            old(self).nodes_ok(-1),
            old(self).leaves_ok(),
            old(self).linked(),
            old(self).live@.contains(leaf_id),
            old(self).is_leaf(leaf_id),
            old(self).in_range(leaf_id, record_id as int),
        ensures
            inserted(&*old(self), &*final(self), leaf_id, record_id, page_id, res),
            res matches Ok(r) ==> leaf_layout(&*old(self), &*final(self), leaf_id, record_id, page_id, r),
    {
        proof {
            assert(self.leaf_ok(leaf_id));
        }
        let pos = match &self.nodes[leaf_id] {
            Node::Leaf { entries, .. } => match search_entries(entries, record_id) {
                Ok(i) => {
                    proof {
                        assert(self.has_entry(leaf_id, i as int, record_id));
                        lemma_view_holds(self, record_id, entries@[i as int].page_id);
                    }
                    return Err(DbError::DuplicateKey);
                },
                Err(i) => i,
            },
            Node::Internal { .. } => 0,
        };
        proof {
            if self@.contains_key(record_id) {
                let (l, i) = choose|l: usize, i: int| #[trigger] self.has_entry(l, i, record_id);
                assert(self.leaf_ok(l));
                assert(self.in_range(l, record_id as int));
                assert(l == leaf_id);
            }
        }
        let node = self.take_node(leaf_id);
        let (mut entries, next) = leaf_parts(node);
        let ghost es = entries@;
        entries.insert(pos, Entry { record_id, page_id });
        let len = entries.len();
        self.nodes[leaf_id] = Node::Leaf { entries, next };
        proof {
            let ks = ekeys(es);
            assert(sorted(ks));
            lemma_pp(ks, record_id as int);
            let q = pp(ks, record_id as int);
            assert forall|i: int| 0 <= i < es.len() implies ks[i] == es[i].record_id by {}
            if q < pos {
                assert(ks[q] > record_id);
            } else if q > pos {
                assert(ks[pos as int] <= record_id);
            }
            assert(pos == q);
            assert(entries_of(self.node(leaf_id)) == es.insert(q, Entry { record_id, page_id }));
            assert(changed_one(&*old(self), &*self, leaf_id));
        }
        proof {
            let o = *old(self);
            let s = *self;
            let e = Entry { record_id, page_id };
            let es2 = es.insert(pos as int, e);
            assert(entries_of(s.node(leaf_id)) == es2);
            assert(ekeys(es2) =~= ekeys(es).insert(pos as int, record_id));
            assert forall|i: int| 0 <= i < es.len() implies (i < pos ==> es[i].record_id < record_id) && (i >= pos
                ==> es[i].record_id > record_id) by {
                assert(ekeys(es)[i] == es[i].record_id);
            }
            assert(sorted(ekeys(es2))) by {
                assert forall|a: int, b: int| 0 <= a < b < ekeys(es2).len() implies ekeys(es2)[a] < ekeys(es2)[b] by {
                    assert(ekeys(es2)[a] == es2[a].record_id && ekeys(es2)[b] == es2[b].record_id);
                    if a < pos && b < pos + 1 {
                    } else if a > pos {
                        assert(ekeys(es)[a - 1] == es[a - 1].record_id && ekeys(es)[b - 1] == es[b - 1].record_id);
                    } else if a < pos {
                        assert(ekeys(es)[a] == es[a].record_id && ekeys(es)[b - 1] == es[b - 1].record_id);
                    }
                }
            }
            assert(s.leaf_ok(leaf_id)) by {
                assert forall|i: int| 0 <= i < es2.len() implies s.in_range(leaf_id, #[trigger] es2[i].record_id as int) by {
                    if i < pos {
                        assert(es2[i] == es[i]);
                    } else if i > pos {
                        assert(es2[i] == es[i - 1]);
                    }
                }
            }
            assert forall|x: usize| #[trigger] s.live@.contains(x) && s.is_leaf(x) implies s.leaf_ok(x) by {
                if x != leaf_id {
                    assert(o.leaf_ok(x));
                }
            }
            assert forall|x: usize| #[trigger] s.live@.contains(x) implies s.wf_node(x) by {
                assert(o.wf_node(x));
            }
            assert forall|a: usize, b: usize, j: int|
                s.live@.contains(a) && s.live@.contains(b) && s.is_leaf(a) && s.is_leaf(b)
                    && #[trigger] s.in_range(a, j) && #[trigger] s.in_range(b, j) implies a == b by {
                assert(o.in_range(a, j) && o.in_range(b, j));
            }
            assert(s.leaves_ok());
            assert forall|k: u16, v: u64| #[trigger] s.holds(k, v) <==> ((k == record_id && v == page_id) || (k
                != record_id && o.holds(k, v))) by {
                if s.holds(k, v) {
                    let (l, i) = choose|l: usize, i: int| #[trigger] s.has_entry(l, i, k) && entries_of(s.node(l))[i].page_id == v;
                    if l == leaf_id {
                        if i < pos {
                            assert(o.has_entry(leaf_id, i, k));
                        } else if i > pos {
                            assert(o.has_entry(leaf_id, i - 1, k));
                        }
                    } else {
                        assert(o.has_entry(l, i, k));
                    }
                }
                if k == record_id && v == page_id {
                    assert(s.has_entry(leaf_id, pos as int, k));
                }
                if k != record_id && o.holds(k, v) {
                    let (l, i) = choose|l: usize, i: int| #[trigger] o.has_entry(l, i, k) && entries_of(o.node(l))[i].page_id == v;
                    if l == leaf_id {
                        if i < pos {
                            assert(s.has_entry(leaf_id, i, k));
                        } else {
                            assert(s.has_entry(leaf_id, i + 1, k));
                        }
                    } else {
                        assert(s.has_entry(l, i, k));
                    }
                }
            }
            lemma_view_insert(&o, &s, record_id, page_id);
        }
        if len < self.m {
            Ok(None)
        } else {
            let ghost s = *self;
            let r = self.split_leaf(leaf_id);
            proof {
                lemma_grown_compose(&*old(self), &s, &*self, leaf_id, leaf_id, None, Some(r));
                assert(fresh_id(&s) == fresh_id(&*old(self)));
                assert(placed_one(&*old(self), &*self, leaf_id));
            }
            Ok(Some(r))
        }
    }
}

impl BPlusTree {
    /// Internal node `n` is well formed but for child `idx`, which was split at `sep`: that
    /// child now ends at `sep`, and `q`, which no node lists as a child, covers the rest of
    /// the child's old range.
    pub open spec fn child_split(&self, n: usize, idx: int, sep: u16, q: usize) -> bool {
        let keys = keys_of(self.node(n));
        let children = children_of(self.node(n));
        &&& self.live@.contains(n)
        &&& !self.is_leaf(n)
        &&& self.height@[n] > 0
        &&& self.lo@[n] < self.hi@[n]
        &&& children.len() == keys.len() + 1
        &&& sorted(keys)
        &&& forall|i: int| 0 <= i < keys.len() ==> self.strictly_in(n, #[trigger] keys[i] as int)
        &&& forall|a: int, b: int|
            0 <= a < children.len() && 0 <= b < children.len() && a != b ==> #[trigger] children[a]
                != #[trigger] children[b]
        &&& 0 <= idx < children.len()
        &&& forall|c: int|
            0 <= c < children.len() ==> {
                let ch = #[trigger] children[c];
                &&& self.live@.contains(ch)
                &&& ch != self.root
                &&& self.parent@[ch] == n
                &&& self.height@[ch] + 1 == self.height@[n]
                &&& self.lo@[ch] == self.child_lo(n, keys, c)
                &&& (c != idx ==> self.hi@[ch] == self.child_hi(n, keys, c))
            }
        &&& self.child_lo(n, keys, idx) < sep < self.child_hi(n, keys, idx)
        &&& self.hi@[children[idx]] == sep
        &&& self.live@.contains(q)
        &&& q != self.root
        &&& self.parent@[q] == n
        &&& self.height@[q] + 1 == self.height@[n]
        &&& self.lo@[q] == sep
        &&& self.hi@[q] == self.child_hi(n, keys, idx)
        &&& forall|x: usize| #[trigger] self.live@.contains(x) && !self.is_leaf(x) ==> !children_of(self.node(x)).contains(q)
    }

    /// Records in internal node `node_id` that its child `idx` was split at `sep` into
    /// itself and `new_child_id`; splits the node too once it reaches `m` keys.
    #[verifier::rlimit(80)]
    fn insert_into_internal(&mut self, node_id: usize, idx: usize, sep: u16, new_child_id: usize) -> (res: Result<
        Option<(u16, usize)>,
        DbError,
    >)
        requires
            old(self).arena_ok(),
            old(self).nodes_ok(node_id as int),
            old(self).leaves_ok(),
            old(self).linked(),
            old(self).child_split(node_id, idx as int, sep, new_child_id),
        ensures
            match res {
                Ok(r) => grown(&*old(self), &*final(self), node_id, r),
                Err(_) => false,
            },
            final(self)@ == old(self)@,
            res matches Ok(r) ==> internal_layout(&*old(self), &*final(self), node_id, idx as int, sep, new_child_id, r),
    {
        let node = self.take_node(node_id);
        let (mut keys, mut children) = internal_parts(node);
        let ghost ks = keys@;
        let ghost cs = children@;
        assert(idx < children.len());
        keys.insert(idx, sep);
        children.insert(idx + 1, new_child_id);
        let len = keys.len();
        self.nodes[node_id] = Node::Internal { keys, children };
        proof {
            assert(changed_one(&*old(self), &*self, node_id));
        }
        proof {
            let o = *old(self);
            let s = *self;
            let ks2 = ks.insert(idx as int, sep);
            let cs2 = cs.insert(idx + 1, new_child_id);
            assert(keys_of(s.node(node_id)) == ks2);
            assert(children_of(s.node(node_id)) == cs2);
            assert(sorted(ks2)) by {
                assert forall|a: int, b: int| 0 <= a < b < ks2.len() implies ks2[a] < ks2[b] by {
                    if idx > 0 {
                        assert(o.child_lo(node_id, ks, idx as int) == ks[idx - 1]);
                    }
                    if idx < ks.len() {
                        assert(o.child_hi(node_id, ks, idx as int) == ks[idx as int]);
                    }
                    if a < idx && b > idx {
                        assert(ks[a] <= ks[idx - 1]);
                        assert(ks[idx as int] <= ks[b - 1]);
                    } else if a < idx && b == idx {
                        assert(ks[a] <= ks[idx - 1]);
                    } else if a == idx {
                        assert(ks[idx as int] <= ks[b - 1]);
                    }
                }
            }
            assert(s.wf_node(node_id)) by {
                assert forall|i: int| 0 <= i < ks2.len() implies s.in_range(node_id, #[trigger] ks2[i] as int) by {
                    if i < idx {
                        assert(ks2[i] == ks[i]);
                    } else if i > idx {
                        assert(ks2[i] == ks[i - 1]);
                    } else {
                        assert(o.lo@[node_id] <= o.child_lo(node_id, ks, idx as int));
                        assert(o.child_hi(node_id, ks, idx as int) <= o.hi@[node_id]);
                    }
                }
                assert forall|a: int, b: int|
                    0 <= a < cs2.len() && 0 <= b < cs2.len() && a != b implies #[trigger] cs2[a] != #[trigger] cs2[b] by {
                    if a == idx + 1 {
                        assert(cs.contains(cs2[b]) || b == idx + 1);
                        if b < idx + 1 {
                            assert(cs2[b] == cs[b]);
                        } else {
                            assert(cs2[b] == cs[b - 1]);
                        }
                    } else if b == idx + 1 {
                        if a < idx + 1 {
                            assert(cs2[a] == cs[a]);
                        } else {
                            assert(cs2[a] == cs[a - 1]);
                        }
                    }
                }
                assert forall|c: int| 0 <= c < cs2.len() implies {
                    let ch = #[trigger] cs2[c];
                    &&& s.live@.contains(ch)
                    &&& ch != s.root
                    &&& s.parent@[ch] == node_id
                    &&& s.height@[ch] + 1 == s.height@[node_id]
                    &&& s.lo@[ch] == s.child_lo(node_id, ks2, c)
                    &&& s.hi@[ch] == s.child_hi(node_id, ks2, c)
                } by {
                    if c < idx {
                        assert(cs2[c] == cs[c]);
                        if c > 0 {
                            assert(ks2[c - 1] == ks[c - 1]);
                        }
                        assert(ks2[c] == ks[c]);
                    } else if c == idx {
                        assert(cs2[c] == cs[c]);
                        if c > 0 {
                            assert(ks2[c - 1] == ks[c - 1]);
                        }
                    } else if c == idx + 1 {
                        if c < ks2.len() {
                            assert(ks2[c] == ks[c - 1]);
                        }
                    } else {
                        assert(cs2[c] == cs[c - 1]);
                        assert(ks2[c - 1] == ks[c - 2]);
                        if c < ks2.len() {
                            assert(ks2[c] == ks[c - 1]);
                        }
                    }
                }
            }
            assert forall|x: usize| #[trigger] s.live@.contains(x) implies s.wf_node(x) by {
                if x != node_id {
                    assert(o.wf_node(x));
                }
            }
            assert forall|x: usize| #[trigger] s.live@.contains(x) && s.is_leaf(x) implies s.leaf_ok(x) by {
                assert(o.leaf_ok(x));
            }
            assert forall|a: usize, b: usize, j: int|
                s.live@.contains(a) && s.live@.contains(b) && s.is_leaf(a) && s.is_leaf(b)
                    && #[trigger] s.in_range(a, j) && #[trigger] s.in_range(b, j) implies a == b by {
                assert(o.in_range(a, j) && o.in_range(b, j));
            }
            assert forall|k: u16, v: u64| #[trigger] s.holds(k, v) <==> o.holds(k, v) by {
                if s.holds(k, v) {
                    let (l, i) = choose|l: usize, i: int| #[trigger] s.has_entry(l, i, k) && entries_of(s.node(l))[i].page_id == v;
                    assert(o.has_entry(l, i, k));
                }
                if o.holds(k, v) {
                    let (l, i) = choose|l: usize, i: int| #[trigger] o.has_entry(l, i, k) && entries_of(o.node(l))[i].page_id == v;
                    assert(s.has_entry(l, i, k));
                }
            }
            lemma_view_same(&o, &s);
        }
        if len < self.m {
            Ok(None)
        } else {
            let ghost s = *self;
            let r = self.split_internal(node_id);
            proof {
                lemma_grown_compose(&*old(self), &s, &*self, node_id, node_id, None, Some(r));
                assert(fresh_id(&s) == fresh_id(&*old(self)));
                assert(placed_one(&*old(self), &*self, node_id));
            }
            Ok(Some(r))
        }
    }
}

impl BPlusTree {
    /// Inserts `(record_id, page_id)` into the subtree of `node_id`; returns the split of
    /// `node_id`, if it had to split, for its parent to record.
    fn insert_recursive(&mut self, node_id: usize, record_id: u16, page_id: u64) -> (res: Result<
        Option<(u16, usize)>,
        DbError,
    >)
        requires
            old(self).arena_ok(),
            old(self).nodes_ok(-1),
            old(self).leaves_ok(),
            old(self).linked(),
            old(self).live@.contains(node_id),
            old(self).in_range(node_id, record_id as int),
        ensures
            inserted(&*old(self), &*final(self), node_id, record_id, page_id, res),
            res matches Ok(r) ==> ins_layout(*old(self), *final(self), node_id, record_id, page_id, r),
        decreases old(self).height@[node_id],
    {
        let is_leaf = matches!(self.nodes[node_id], Node::Leaf { .. });
        if is_leaf {
            return self.insert_into_leaf(node_id, record_id, page_id);
        }
        proof {
            assert(self.wf_node(node_id));
        }
        let idx = match &self.nodes[node_id] {
            Node::Internal { keys, .. } => partition_point(keys, record_id),
            Node::Leaf { .. } => 0,
        };
        proof {
            lemma_pp(keys_of(self.node(node_id)), record_id as int);
        }
        let child_id = match &self.nodes[node_id] {
            Node::Internal { children, .. } => children[idx],
            Node::Leaf { .. } => 0,
        };
        proof {
            lemma_pp(keys_of(self.node(node_id)), record_id as int);
            assert(children_of(self.node(node_id))[idx as int] == child_id);
        }
        proof {
            assert(self.height@[child_id] < self.height@[node_id]);
        }
        match self.insert_recursive(child_id, record_id, page_id) {
            Err(e) => Err(e),
            Ok(None) => {
                proof {
                    lemma_grown_refl(self, node_id);
                    lemma_grown_compose(&*old(self), &*self, &*self, child_id, node_id, None, None);
                    let o = *old(self);
                    let f = *self;
                    assert(ins_layout(o, f, child_id, record_id, page_id, None));
                    assert(!o.is_leaf(node_id));
                    assert(pp(keys_of(o.node(node_id)), record_id as int) == idx);
                    assert(children_of(o.node(node_id))[idx as int] == child_id);
                    assert(o.height@[child_id] < o.height@[node_id]);
                    lemma_ins_layout_step(o, f, f, node_id, record_id, page_id, None, None);
                }
                Ok(None)
            },
            Ok(Some((sep, new_child_id))) => {
                let ghost s1 = *self;
                proof {
                    let o = *old(self);
                    assert(s1.nodes@[node_id as int] == o.nodes@[node_id as int]);
                    let keys = keys_of(o.node(node_id));
                    let children = children_of(o.node(node_id));
                    assert forall|c: int| 0 <= c < children.len() implies {
                        let ch = #[trigger] children[c];
                        &&& s1.live@.contains(ch)
                        &&& ch != s1.root
                        &&& s1.parent@[ch] == node_id
                        &&& s1.height@[ch] + 1 == s1.height@[node_id]
                        &&& s1.lo@[ch] == s1.child_lo(node_id, keys, c)
                        &&& (c != idx ==> s1.hi@[ch] == s1.child_hi(node_id, keys, c))
                    } by {
                        let ch = children[c];
                        assert(o.live@.contains(ch));
                        assert(o.height@[ch] == o.height@[child_id]);
                        if c != idx {
                            assert(ch != child_id);
                        }
                    }
                    assert(s1.child_split(node_id, idx as int, sep, new_child_id));
                    assert(s1.nodes_ok(node_id as int));
                }
                let r = self.insert_into_internal(node_id, idx, sep, new_child_id);
                proof {
                    match r {
                        Ok(r2) => {
                            lemma_grown_compose(&*old(self), &s1, &*self, child_id, node_id, Some((sep, new_child_id)), r2);
                            let o = *old(self);
                            let f = *self;
                            assert(ins_layout(o, s1, child_id, record_id, page_id, Some((sep, new_child_id))));
                            assert(internal_layout(&s1, &f, node_id, idx as int, sep, new_child_id, r2));
                            assert(!o.is_leaf(node_id));
                            assert(pp(keys_of(o.node(node_id)), record_id as int) == idx);
                            assert(children_of(o.node(node_id))[idx as int] == child_id);
                            assert(o.height@[child_id] < o.height@[node_id]);
                            lemma_ins_layout_step(o, s1, f, node_id, record_id, page_id, Some((sep, new_child_id)), r2);
                        },
                        Err(_) => {},
                    }
                }
                r
            },
        }
    }

    /// Inserts `(record_id, page_id)`; `DuplicateKey`, with the tree unchanged, if
    /// `record_id` is there already. A split that reaches the root gives the tree a new
    /// root.
    pub fn insert(&mut self, record_id: u16, page_id: u64) -> (res: Result<(), DbError>)
        requires
            old(self).wf(),
        ensures
            final(self).wf(),
            final(self).m == old(self).m,
            match res {
                Ok(()) => !old(self)@.contains_key(record_id) && final(self)@ == old(self)@.insert(record_id, page_id),
                Err(e) => e == DbError::DuplicateKey && old(self)@.contains_key(record_id) && *final(self) == *old(self),
            },
            res is Ok ==> final(self).root == old(self).root || root_split(&*old(self), &*final(self)),
            res is Ok ==> exists|s: BPlusTree, rc: Option<(u16, usize)>|
                #[trigger] root_after(&s, &*final(self), rc) && ins_layout(
                    *old(self),
                    s,
                    old(self).root,
                    record_id,
                    page_id,
                    rc,
                ),
    {
        let root = self.root;
        match self.insert_recursive(root, record_id, page_id) {
            Err(e) => Err(e),
            Ok(None) => {
                proof {
                    assert(root_after(&*self, &*self, None) && ins_layout(*old(self), *self, root, record_id, page_id, None));
                }
                Ok(())
            },
            Ok(Some((sep, right_id))) => {
                let ghost s1 = *self;
                let new_root = Node::Internal { keys: vec![sep], children: vec![root, right_id] };
                let new_root_id = self.push_node(new_root);
                let ghost h = self.height@[root];
                self.live = Ghost(self.live@.insert(new_root_id));
                self.height = Ghost(self.height@.insert(new_root_id, h + 1));
                self.lo = Ghost(self.lo@.insert(new_root_id, 0));
                self.hi = Ghost(self.hi@.insert(new_root_id, key_space_end()));
                self.parent = Ghost(self.parent@.insert(root, new_root_id).insert(right_id, new_root_id));
                self.root = new_root_id;
                proof {
                    let f = *self;
                    assert(keys_of(f.node(new_root_id)) =~= seq![sep]);
                    assert(children_of(f.node(new_root_id)) =~= seq![root, right_id]);
                    assert(f.wf_node(new_root_id)) by {
                        let cs = children_of(f.node(new_root_id));
                        assert forall|a: int, b: int|
                            0 <= a < cs.len() && 0 <= b < cs.len() && a != b implies #[trigger] cs[a] != #[trigger] cs[b] by {
                        }
                    }
                    assert forall|x: usize| #[trigger] f.live@.contains(x) implies f.wf_node(x) by {
                        if x != new_root_id {
                            assert(s1.wf_node(x));
                            if !f.is_leaf(x) {
                                let ch = children_of(f.node(x));
                                assert forall|c: int| 0 <= c < ch.len() implies #[trigger] ch[c] != root && ch[c]
                                    != right_id && ch[c] != new_root_id by {
                                    assert(s1.live@.contains(ch[c]));
                                    assert(ch.contains(ch[c]));
                                }
                            }
                        }
                    }
                    assert forall|x: usize| #[trigger] f.live@.contains(x) && f.is_leaf(x) implies f.leaf_ok(x) by {
                        assert(s1.leaf_ok(x));
                    }
                    assert forall|a: usize, b: usize, j: int|
                        f.live@.contains(a) && f.live@.contains(b) && f.is_leaf(a) && f.is_leaf(b)
                            && #[trigger] f.in_range(a, j) && #[trigger] f.in_range(b, j) implies a == b by {
                        assert(s1.in_range(a, j) && s1.in_range(b, j));
                    }
                    assert forall|k: u16, v: u64| #[trigger] f.holds(k, v) <==> s1.holds(k, v) by {
                        if f.holds(k, v) {
                            let (l, i) = choose|l: usize, i: int| #[trigger] f.has_entry(l, i, k) && entries_of(f.node(l))[i].page_id == v;
                            assert(s1.has_entry(l, i, k));
                        }
                        if s1.holds(k, v) {
                            let (l, i) = choose|l: usize, i: int| #[trigger] s1.has_entry(l, i, k) && entries_of(s1.node(l))[i].page_id == v;
                            assert(f.has_entry(l, i, k));
                        }
                    }
                    lemma_view_same(&s1, &f);
                    assert(root_grown(&s1, &f, sep, right_id));
                    assert(root_after(&s1, &f, Some((sep, right_id))) && ins_layout(
                        *old(self),
                        s1,
                        root,
                        record_id,
                        page_id,
                        Some((sep, right_id)),
                    ));
                }
                Ok(())
            },
        }
    }
}

/// The root of `o` was split: `f` has a new internal root, a node that was not in use,
/// with one key and two children, the first of them the old root, one level above it.
pub open spec fn root_split(o: &BPlusTree, f: &BPlusTree) -> bool {
    &&& !o.live@.contains(f.root)
    &&& !f.is_leaf(f.root)
    &&& keys_of(f.node(f.root)).len() == 1
    &&& children_of(f.node(f.root)).len() == 2
    &&& children_of(f.node(f.root))[0] == o.root
    &&& f.height@[f.root] == o.height@[o.root] + 1
}

/// How the root of `f` follows from the tree `s` whose root gave the split `rc`: without a
/// split `f` is `s`; with one, the root grew as `root_grown` says.
pub open spec fn root_after(s: &BPlusTree, f: &BPlusTree, rc: Option<(u16, usize)>) -> bool {
    match rc {
        None => *f == *s,
        Some((sep, q)) => root_grown(s, f, sep, q),
    }
}

/// What one rebalancing step at parent `p` leaves: a well-formed tree with the same map
/// and root, `p` still an internal node in use at its height, and every node above `p`
/// untouched.
pub open spec fn stepped(o: &BPlusTree, f: &BPlusTree, p: usize) -> bool {
    &&& f.wf()
    &&& f@ == o@
    &&& f.root == o.root
    &&& f.m == o.m
    &&& f.live@.contains(p)
    &&& !f.is_leaf(p)
    &&& f.height@[p] == o.height@[p]
    &&& forall|x: usize|
        #[trigger] o.live@.contains(x) && o.height@[x] > o.height@[p] ==> {
            &&& f.live@.contains(x)
            &&& f.nodes@[x as int] == o.nodes@[x as int]
            &&& f.height@[x] == o.height@[x]
        }
}

/// Every node of `f` but `a`, `b` and `c` is the node of `o` at the same index, and the
/// arena has the same size.
pub open spec fn others_kept(o: &BPlusTree, f: &BPlusTree, a: usize, b: usize, c: usize) -> bool {
    &&& f.nodes@.len() == o.nodes@.len()
    &&& forall|x: int|
        0 <= x < o.nodes@.len() && x != a && x != b && x != c ==> #[trigger] f.nodes@[x] == o.nodes@[x]
}

/// What moving the last item of `l` to the front of its right sibling `n` leaves, where
/// `l` and `n` are children `c - 1` and `c` of `p`. For leaves, the last entry of `l`
/// becomes the first entry of `n` and its key the key between them in `p`. For internal
/// nodes, that key of `p` comes down to the front of `n`'s keys, the last child of `l`
/// becomes the first child of `n`, and the last key of `l` goes up in its place. `p`
/// keeps its children and every other node is unchanged.
pub open spec fn lent_rightward(o: &BPlusTree, f: &BPlusTree, p: usize, c: int, l: usize, n: usize) -> bool {
    let pk = keys_of(o.node(p));
    &&& others_kept(o, f, p, l, n)
    &&& !f.is_leaf(p)
    &&& children_of(f.node(p)) == children_of(o.node(p))
    &&& if o.is_leaf(n) {
        let les = entries_of(o.node(l));
        &&& f.is_leaf(l) && f.is_leaf(n)
        &&& entries_of(f.node(l)) == les.drop_last()
        &&& entries_of(f.node(n)) == seq![les.last()] + entries_of(o.node(n))
        &&& f.node(l)->Leaf_next == o.node(l)->Leaf_next
        &&& f.node(n)->Leaf_next == o.node(n)->Leaf_next
        &&& keys_of(f.node(p)) == pk.update(c - 1, les.last().record_id)
    } else {
        let lks = keys_of(o.node(l));
        let lcs = children_of(o.node(l));
        &&& !f.is_leaf(l) && !f.is_leaf(n)
        &&& keys_of(f.node(l)) == lks.drop_last()
        &&& children_of(f.node(l)) == lcs.drop_last()
        &&& keys_of(f.node(n)) == seq![pk[c - 1]] + keys_of(o.node(n))
        &&& children_of(f.node(n)) == seq![lcs.last()] + children_of(o.node(n))
        &&& keys_of(f.node(p)) == pk.update(c - 1, lks.last())
    }
}

/// What moving the first item of `r` to the end of its left sibling `n` leaves, where
/// `n` and `r` are children `c` and `c + 1` of `p`. For leaves, the first entry of `r`
/// becomes the last entry of `n`, and the key of the entry now first in `r` becomes the
/// key between them in `p`. For internal nodes, that key of `p` comes down to the end of
/// `n`'s keys, the first child of `r` becomes the last child of `n`, and the first key of
/// `r` goes up in its place. `p` keeps its children and every other node is unchanged.
pub open spec fn lent_leftward(o: &BPlusTree, f: &BPlusTree, p: usize, c: int, n: usize, r: usize) -> bool {
    let pk = keys_of(o.node(p));
    &&& others_kept(o, f, p, n, r)
    &&& !f.is_leaf(p)
    &&& children_of(f.node(p)) == children_of(o.node(p))
    &&& if o.is_leaf(n) {
        let res = entries_of(o.node(r));
        &&& f.is_leaf(n) && f.is_leaf(r)
        &&& entries_of(f.node(r)) == res.drop_first()
        &&& entries_of(f.node(n)) == entries_of(o.node(n)).push(res[0])
        &&& f.node(n)->Leaf_next == o.node(n)->Leaf_next
        &&& f.node(r)->Leaf_next == o.node(r)->Leaf_next
        &&& keys_of(f.node(p)) == pk.update(c, res[1].record_id)
    } else {
        let rks = keys_of(o.node(r));
        let rcs = children_of(o.node(r));
        &&& !f.is_leaf(n) && !f.is_leaf(r)
        &&& keys_of(f.node(r)) == rks.drop_first()
        &&& children_of(f.node(r)) == rcs.drop_first()
        &&& keys_of(f.node(n)) == keys_of(o.node(n)).push(pk[c])
        &&& children_of(f.node(n)) == children_of(o.node(n)).push(rcs[0])
        &&& keys_of(f.node(p)) == pk.update(c, rks[0])
    }
}

/// What merging `r` into its left sibling `l` leaves, where `l` and `r` are children `i`
/// and `i + 1` of `p`. For leaves, `l` holds its entries followed by those of `r` and
/// links to the leaf that followed `r`. For internal nodes, `l` holds its keys, the key
/// between them in `p` and the keys of `r`, and its children followed by those of `r`.
/// `p` loses key `i` and child `i + 1`, `r` is out of use and trashed, and every other
/// node is unchanged.
pub open spec fn merged(o: &BPlusTree, f: &BPlusTree, p: usize, i: int, l: usize, r: usize) -> bool {
    let pk = keys_of(o.node(p));
    &&& others_kept(o, f, p, l, r)
    &&& !f.is_leaf(p)
    &&& keys_of(f.node(p)) == pk.remove(i)
    &&& children_of(f.node(p)) == children_of(o.node(p)).remove(i + 1)
    &&& f.live@ == o.live@.remove(r)
    &&& f.trash@ == o.trash@.push(r)
    &&& if o.is_leaf(l) {
        &&& f.is_leaf(l)
        &&& entries_of(f.node(l)) == entries_of(o.node(l)) + entries_of(o.node(r))
        &&& f.node(l)->Leaf_next == o.node(r)->Leaf_next
    } else {
        &&& !f.is_leaf(l)
        &&& keys_of(f.node(l)) == keys_of(o.node(l)).push(pk[i]) + keys_of(o.node(r))
        &&& children_of(f.node(l)) == children_of(o.node(l)) + children_of(o.node(r))
    }
}

/// The chain of leaves survives a change that keeps every leaf in use as it was (its link
/// and its range) and takes out of use only internal nodes.
pub proof fn lemma_linked_frame(o: &BPlusTree, f: &BPlusTree)
    requires
        o.linked(),
        forall|x: usize| #[trigger] f.live@.contains(x) ==> o.live@.contains(x),
        forall|x: usize| #[trigger] o.live@.contains(x) && o.is_leaf(x) ==> f.live@.contains(x),
        forall|x: usize| #[trigger] f.live@.contains(x) ==> f.is_leaf(x) == o.is_leaf(x),
        forall|x: usize|
            #[trigger] o.live@.contains(x) && o.is_leaf(x) ==> f.node(x)->Leaf_next == o.node(x)->Leaf_next
                && f.lo@[x] == o.lo@[x] && f.hi@[x] == o.hi@[x],
    ensures
        f.linked(),
{
    assert forall|x: usize| #[trigger] f.live@.contains(x) && f.is_leaf(x) implies {
        &&& f.hi@[x] <= key_space_end()
        &&& match f.node(x)->Leaf_next {
            None => f.hi@[x] == key_space_end(),
            Some(y) => f.live@.contains(y) && f.is_leaf(y) && f.lo@[y] == f.hi@[x],
        }
    } by {
        assert(o.live@.contains(x) && o.is_leaf(x));
        if let Some(y) = o.node(x)->Leaf_next {
            assert(o.live@.contains(y) && o.is_leaf(y));
            assert(f.live@.contains(y));
        }
    }
}

/// In a well-formed tree, a leaf whose range ends where leaf `b`'s begins links to `b`,
/// and no other leaf does.
pub proof fn lemma_next_leaf(o: &BPlusTree, a: usize, b: usize)
    requires
        o.wf(),
        o.live@.contains(a),
        o.is_leaf(a),
        o.live@.contains(b),
        o.is_leaf(b),
        o.hi@[a] == o.lo@[b],
    ensures
        o.node(a)->Leaf_next == Some(b),
        forall|x: usize|
            #[trigger] o.live@.contains(x) && o.is_leaf(x) && o.node(x)->Leaf_next == Some(b) ==> x == a,
{
    assert(o.leaf_ok(a) && o.leaf_ok(b));
    assert(o.hi@[a] <= key_space_end());
    match o.node(a)->Leaf_next {
        None => {
            assert(o.hi@[b] <= key_space_end());
        },
        Some(y) => {
            assert(o.live@.contains(y) && o.is_leaf(y));
            assert(o.leaf_ok(y));
            assert(o.in_range(y, o.lo@[b]) && o.in_range(b, o.lo@[b]));
        },
    }
    assert forall|x: usize|
        #[trigger] o.live@.contains(x) && o.is_leaf(x) && o.node(x)->Leaf_next == Some(b) implies x == a by {
        assert(o.leaf_ok(x));
        assert(o.in_range(x, o.hi@[a] - 1) && o.in_range(a, o.hi@[a] - 1));
    }
}

/// Moving the boundary between neighbouring leaves `a` and `b` to `k`, inside their joint
/// range, keeps the chain of leaves.
pub proof fn lemma_linked_shift(o: &BPlusTree, f: &BPlusTree, a: usize, b: usize, k: int)
    requires
        o.wf(),
        o.live@.contains(a),
        o.is_leaf(a),
        o.live@.contains(b),
        o.is_leaf(b),
        o.hi@[a] == o.lo@[b],
        o.lo@[a] < k < o.hi@[b],
        f.live@ == o.live@,
        forall|x: usize| #[trigger] f.live@.contains(x) ==> f.is_leaf(x) == o.is_leaf(x),
        forall|x: usize|
            #[trigger] o.live@.contains(x) && o.is_leaf(x) ==> f.node(x)->Leaf_next == o.node(x)->Leaf_next,
        f.lo@ == o.lo@.insert(b, k),
        f.hi@ == o.hi@.insert(a, k),
    ensures
        f.linked(),
{
    lemma_next_leaf(o, a, b);
    assert(o.leaf_ok(a) && o.leaf_ok(b));
    assert(a != b);
    assert forall|x: usize| #[trigger] f.live@.contains(x) && f.is_leaf(x) implies {
        &&& f.hi@[x] <= key_space_end()
        &&& match f.node(x)->Leaf_next {
            None => f.hi@[x] == key_space_end(),
            Some(y) => f.live@.contains(y) && f.is_leaf(y) && f.lo@[y] == f.hi@[x],
        }
    } by {
        assert(o.live@.contains(x) && o.is_leaf(x));
        assert(o.hi@[b] <= key_space_end());
        if let Some(y) = o.node(x)->Leaf_next {
            assert(o.live@.contains(y) && o.is_leaf(y));
            assert(o.leaf_ok(y));
            if x != a {
                assert(y != b);
            }
        }
    }
}

/// Merging leaf `r` into its left neighbour `l`, which takes over `r`'s link and range end,
/// keeps the chain of leaves.
pub proof fn lemma_linked_merge(o: &BPlusTree, f: &BPlusTree, l: usize, r: usize)
    requires
        o.wf(),
        o.live@.contains(l),
        o.is_leaf(l),
        o.live@.contains(r),
        o.is_leaf(r),
        o.hi@[l] == o.lo@[r],
        f.live@ == o.live@.remove(r),
        forall|x: usize| #[trigger] f.live@.contains(x) ==> f.is_leaf(x) == o.is_leaf(x),
        forall|x: usize|
            #[trigger] o.live@.contains(x) && o.is_leaf(x) && x != l ==> f.node(x)->Leaf_next == o.node(x)->Leaf_next,
        f.node(l)->Leaf_next == o.node(r)->Leaf_next,
        f.lo@ == o.lo@,
        f.hi@ == o.hi@.insert(l, o.hi@[r]),
    ensures
        f.linked(),
{
    lemma_next_leaf(o, l, r);
    assert(o.leaf_ok(l) && o.leaf_ok(r));
    assert(l != r);
    assert forall|x: usize| #[trigger] f.live@.contains(x) && f.is_leaf(x) implies {
        &&& f.hi@[x] <= key_space_end()
        &&& match f.node(x)->Leaf_next {
            None => f.hi@[x] == key_space_end(),
            Some(y) => f.live@.contains(y) && f.is_leaf(y) && f.lo@[y] == f.hi@[x],
        }
    } by {
        assert(o.live@.contains(x) && o.is_leaf(x));
        if x == l {
            assert(o.hi@[r] <= key_space_end());
            if let Some(y) = o.node(r)->Leaf_next {
                assert(o.live@.contains(y) && o.is_leaf(y));
                assert(o.leaf_ok(y));
                assert(y != r);
            }
        } else if let Some(y) = o.node(x)->Leaf_next {
            assert(o.live@.contains(y) && o.is_leaf(y));
            assert(y != r);
        }
    }
}

impl BPlusTree {
    /// Number of entries of a leaf, or of keys of an internal node.
    pub open spec fn size_of(&self, x: usize) -> int {
        if self.is_leaf(x) {
            entries_of(self.node(x)).len() as int
        } else {
            keys_of(self.node(x)).len() as int
        }
    }

    /// Node `node_id` holds more than the fewest a node should keep.
    fn can_lend(&self, node_id: usize) -> (r: bool)
        requires
            node_id < self.nodes@.len(),
        ensures
            r == (self.size_of(node_id) > self.m / 2),
    {
        match &self.nodes[node_id] {
            Node::Leaf { entries, .. } => entries.len() > self.min_size(),
            Node::Internal { keys, .. } => keys.len() > self.min_size(),
        }
    }

    /// Children `c - 1` and `c` of internal node `p` are `left` and `node`.
    pub open spec fn siblings(&self, p: usize, c: int, left: usize, node: usize) -> bool {
        &&& self.live@.contains(p)
        &&& !self.is_leaf(p)
        &&& 0 < c < children_of(self.node(p)).len()
        &&& children_of(self.node(p))[c - 1] == left
        &&& children_of(self.node(p))[c] == node
    }

    /// Moves the last entry (or key and child) of `left_id` to the front of its right
    /// sibling `node_id`, fixing the key between them in `parent_id`.
    #[verifier::rlimit(80)]
    fn borrow_from_left(&mut self, parent_id: usize, child_idx: usize, left_id: usize, node_id: usize)
        requires
            old(self).wf(),
            old(self).siblings(parent_id, child_idx as int, left_id, node_id),
            old(self).size_of(left_id) > old(self).m / 2,
        ensures
            stepped(&*old(self), &*final(self), parent_id),
            lent_rightward(&*old(self), &*final(self), parent_id, child_idx as int, left_id, node_id),
    {
        proof {
            assert(self.wf_node(parent_id));
            assert(self.wf_node(left_id));
            assert(self.wf_node(node_id));
        }
        let is_leaf = matches!(self.nodes[node_id], Node::Leaf { .. });
        let ghost pk = keys_of(self.node(parent_id));
        let ghost pc = children_of(self.node(parent_id));
        let ghost sep = pk[child_idx - 1];
        if is_leaf {
            let node = self.take_node(left_id);
            let (mut lentries, lnext) = leaf_parts(node);
            let ghost les = lentries@;
            let borrowed = lentries.pop().unwrap();
            self.nodes[left_id] = Node::Leaf { entries: lentries, next: lnext };
            let node = self.take_node(node_id);
            let (mut entries, next) = leaf_parts(node);
            let ghost nes = entries@;
            entries.insert(0, borrowed);
            let new_first_key = entries[0].record_id;
            self.nodes[node_id] = Node::Leaf { entries, next };
            let node = self.take_node(parent_id);
            let (mut keys, children) = internal_parts(node);
            keys.set(child_idx - 1, new_first_key);
            self.nodes[parent_id] = Node::Internal { keys, children };
            self.hi = Ghost(self.hi@.insert(left_id, new_first_key as int));
            self.lo = Ghost(self.lo@.insert(node_id, new_first_key as int));
            proof {
                let o = *old(self);
                let f = *self;
                let k = new_first_key;
                let n = les.len() - 1;
                assert(o.is_leaf(left_id)) by {
                    assert(o.height@[left_id] == o.height@[node_id]);
                }
                assert(left_id != node_id && left_id != parent_id && node_id != parent_id);
                assert(les[n].record_id == k);
                assert(ekeys(les)[0] == les[0].record_id && ekeys(les)[n] == les[n].record_id);
                assert(o.in_range(left_id, les[0].record_id as int));
                assert(o.lo@[left_id] < k);
                assert(k < sep);
                assert(entries_of(f.node(left_id)) =~= les.subrange(0, n));
                assert(entries_of(f.node(node_id)) =~= seq![les[n]] + nes);
                assert(keys_of(f.node(parent_id)) =~= pk.update(child_idx - 1, k));
                assert(children_of(f.node(parent_id)) == pc);
                assert(f.leaf_ok(left_id)) by {
                    assert(ekeys(les.subrange(0, n)) =~= ekeys(les).subrange(0, n));
                    assert forall|i: int| 0 <= i < n implies f.in_range(left_id, #[trigger] les.subrange(0, n)[i].record_id as int) by {
                        assert(ekeys(les)[i] == les[i].record_id);
                        assert(o.in_range(left_id, les[i].record_id as int));
                    }
                }
                assert(f.leaf_ok(node_id)) by {
                    let es2 = seq![les[n]] + nes;
                    assert forall|i: int| 0 <= i < nes.len() implies nes[i].record_id > k && o.in_range(node_id, nes[i].record_id as int) by {
                        assert(o.in_range(node_id, #[trigger] nes[i].record_id as int));
                    }
                    assert(sorted(ekeys(es2))) by {
                        assert forall|a: int, b: int| 0 <= a < b < ekeys(es2).len() implies ekeys(es2)[a] < ekeys(es2)[b] by {
                            assert(ekeys(es2)[b] == nes[b - 1].record_id);
                            if a > 0 {
                                assert(ekeys(es2)[a] == nes[a - 1].record_id);
                                assert(ekeys(nes)[a - 1] == nes[a - 1].record_id && ekeys(nes)[b - 1] == nes[b - 1].record_id);
                            }
                        }
                    }
                    assert forall|i: int| 0 <= i < es2.len() implies f.in_range(node_id, #[trigger] es2[i].record_id as int) by {
                        if i > 0 {
                            assert(es2[i] == nes[i - 1]);
                        }
                    }
                }
                assert(f.wf_node(parent_id)) by {
                    let ks2 = pk.update(child_idx - 1, k);
                    if child_idx >= 2 {
                        assert(o.lo@[left_id] == pk[child_idx - 2]);
                    }
                    assert forall|i: int| 0 <= i < ks2.len() implies f.strictly_in(parent_id, #[trigger] ks2[i] as int) by {
                        if i == child_idx - 1 {
                            assert(o.lo@[parent_id] <= o.lo@[left_id]);
                            assert(o.strictly_in(parent_id, pk[i] as int));
                        } else {
                            assert(o.strictly_in(parent_id, pk[i] as int));
                        }
                    }
                    assert(sorted(ks2)) by {
                        assert forall|a: int, b: int| 0 <= a < b < ks2.len() implies ks2[a] < ks2[b] by {
                            if b == child_idx - 1 {
                                assert(pk[a] <= pk[child_idx - 2]);
                            } else if a == child_idx - 1 {
                                assert(pk[child_idx - 1] < pk[b]);
                            }
                        }
                    }
                    assert forall|c: int| 0 <= c < pc.len() implies {
                        let ch = #[trigger] pc[c];
                        &&& f.live@.contains(ch)
                        &&& ch != f.root
                        &&& f.parent@[ch] == parent_id
                        &&& f.height@[ch] + 1 == f.height@[parent_id]
                        &&& f.lo@[ch] == f.child_lo(parent_id, ks2, c)
                        &&& f.hi@[ch] == f.child_hi(parent_id, ks2, c)
                    } by {
                        if c != child_idx - 1 && c != child_idx {
                            assert(pc[c] != left_id && pc[c] != node_id);
                        }
                    }
                }
                assert forall|x: usize| #[trigger] f.live@.contains(x) implies f.wf_node(x) by {
                    if x != parent_id && x != left_id && x != node_id {
                        assert(o.wf_node(x));
                        if !f.is_leaf(x) {
                            let ch = children_of(f.node(x));
                            assert forall|c: int| 0 <= c < ch.len() implies #[trigger] ch[c] != left_id && ch[c] != node_id by {
                                if ch[c] == left_id || ch[c] == node_id {
                                    assert(o.parent@[ch[c]] == x);
                                }
                            }
                        }
                    }
                }
                assert forall|x: usize| #[trigger] f.live@.contains(x) && f.is_leaf(x) implies f.leaf_ok(x) by {
                    assert(f.wf_node(x));
                }
                assert forall|a: usize, b: usize, j: int|
                    f.live@.contains(a) && f.live@.contains(b) && f.is_leaf(a) && f.is_leaf(b)
                        && #[trigger] f.in_range(a, j) && #[trigger] f.in_range(b, j) implies a == b by {
                    let a0 = if a == node_id && j < sep { left_id } else { a };
                    let b0 = if b == node_id && j < sep { left_id } else { b };
                    assert(o.in_range(a0, j) && o.in_range(b0, j));
                    if a0 == b0 && a != b {
                        assert((a == node_id && b == left_id) || (a == left_id && b == node_id));
                    }
                }
                assert forall|k2: u16, v: u64| #[trigger] f.holds(k2, v) <==> o.holds(k2, v) by {
                    if f.holds(k2, v) {
                        let (l, i) = choose|l: usize, i: int| #[trigger] f.has_entry(l, i, k2) && entries_of(f.node(l))[i].page_id == v;
                        if l == node_id {
                            if i == 0 {
                                assert(o.has_entry(left_id, n, k2));
                            } else {
                                assert(o.has_entry(node_id, i - 1, k2));
                            }
                        } else {
                            assert(o.has_entry(l, i, k2));
                        }
                    }
                    if o.holds(k2, v) {
                        let (l, i) = choose|l: usize, i: int| #[trigger] o.has_entry(l, i, k2) && entries_of(o.node(l))[i].page_id == v;
                        if l == left_id && i == n {
                            assert(f.has_entry(node_id, 0, k2));
                        } else if l == node_id {
                            assert(f.has_entry(node_id, i + 1, k2));
                        } else {
                            assert(f.has_entry(l, i, k2));
                        }
                    }
                }
                assert(f.linked()) by { lemma_linked_shift(&o, &f, left_id, node_id, k as int); }
                lemma_view_same(&o, &f);
                assert forall|x: usize| #[trigger] o.live@.contains(x) && o.height@[x] > o.height@[parent_id] implies x
                    != left_id && x != node_id && x != parent_id by {
                }
            }
        } else {
            let node = self.take_node(left_id);
            let (mut lkeys, mut lchildren) = internal_parts(node);
            let ghost lks = lkeys@;
            let ghost lcs = lchildren@;
            let borrowed_key = lkeys.pop().unwrap();
            let borrowed_child = lchildren.pop().unwrap();
            self.nodes[left_id] = Node::Internal { keys: lkeys, children: lchildren };
            let parent_key = match &self.nodes[parent_id] {
                Node::Internal { keys, .. } => keys[child_idx - 1],
                Node::Leaf { .. } => 0,
            };
            let node = self.take_node(node_id);
            let (mut keys, mut children) = internal_parts(node);
            let ghost nks = keys@;
            let ghost ncs = children@;
            keys.insert(0, parent_key);
            children.insert(0, borrowed_child);
            self.nodes[node_id] = Node::Internal { keys, children };
            let node = self.take_node(parent_id);
            let (mut pkeys, pchildren) = internal_parts(node);
            pkeys.set(child_idx - 1, borrowed_key);
            self.nodes[parent_id] = Node::Internal { keys: pkeys, children: pchildren };
            self.hi = Ghost(self.hi@.insert(left_id, borrowed_key as int));
            self.lo = Ghost(self.lo@.insert(node_id, borrowed_key as int));
            self.parent = Ghost(self.parent@.insert(borrowed_child, node_id));
            proof {
                let o = *old(self);
                let f = *self;
                let k = borrowed_key;
                let n = lks.len() - 1;
                let bc = borrowed_child;
                assert(!o.is_leaf(left_id)) by {
                    assert(o.height@[left_id] == o.height@[node_id]);
                }
                assert(left_id != node_id && left_id != parent_id && node_id != parent_id);
                assert(lks[n] == k && lcs[n + 1] == bc);
                assert(o.strictly_in(left_id, k as int));
                assert(o.live@.contains(bc) && o.parent@[bc] == left_id);
                assert(bc != parent_id && bc != left_id && bc != node_id);
                assert(keys_of(f.node(left_id)) =~= lks.subrange(0, n));
                assert(children_of(f.node(left_id)) =~= lcs.subrange(0, n + 1));
                assert(keys_of(f.node(node_id)) =~= seq![sep] + nks);
                assert(children_of(f.node(node_id)) =~= seq![bc] + ncs);
                assert(keys_of(f.node(parent_id)) =~= pk.update(child_idx - 1, k));
                assert(children_of(f.node(parent_id)) == pc);
                assert(f.wf_node(left_id)) by {
                    let ks2 = lks.subrange(0, n);
                    let cs2 = lcs.subrange(0, n + 1);
                    assert forall|i: int| 0 <= i < ks2.len() implies f.strictly_in(left_id, #[trigger] ks2[i] as int) by {
                        assert(o.strictly_in(left_id, lks[i] as int));
                    }
                    assert forall|c: int| 0 <= c < cs2.len() implies {
                        let ch = #[trigger] cs2[c];
                        &&& f.live@.contains(ch)
                        &&& ch != f.root
                        &&& f.parent@[ch] == left_id
                        &&& f.height@[ch] + 1 == f.height@[left_id]
                        &&& f.lo@[ch] == f.child_lo(left_id, ks2, c)
                        &&& f.hi@[ch] == f.child_hi(left_id, ks2, c)
                    } by {
                        assert(cs2[c] == lcs[c]);
                        assert(lcs[c] != bc);
                    }
                }
                assert(f.wf_node(node_id)) by {
                    let ks2 = seq![sep] + nks;
                    let cs2 = seq![bc] + ncs;
                    assert forall|i: int| 0 <= i < nks.len() implies nks[i] > sep && o.strictly_in(node_id, nks[i] as int) by {
                        assert(o.strictly_in(node_id, #[trigger] nks[i] as int));
                    }
                    assert(sorted(ks2)) by {
                        assert forall|a: int, b: int| 0 <= a < b < ks2.len() implies ks2[a] < ks2[b] by {
                            assert(ks2[b] == nks[b - 1]);
                            if a > 0 {
                                assert(ks2[a] == nks[a - 1]);
                            }
                        }
                    }
                    assert forall|i: int| 0 <= i < ks2.len() implies f.strictly_in(node_id, #[trigger] ks2[i] as int) by {
                        if i > 0 {
                            assert(ks2[i] == nks[i - 1]);
                        }
                    }
                    assert forall|a: int, b: int|
                        0 <= a < cs2.len() && 0 <= b < cs2.len() && a != b implies #[trigger] cs2[a] != #[trigger] cs2[b] by {
                        if a == 0 && b > 0 {
                            assert(cs2[b] == ncs[b - 1]);
                            assert(o.parent@[ncs[b - 1]] == node_id);
                        } else if b == 0 && a > 0 {
                            assert(cs2[a] == ncs[a - 1]);
                            assert(o.parent@[ncs[a - 1]] == node_id);
                        } else if a > 0 && b > 0 {
                            assert(cs2[a] == ncs[a - 1] && cs2[b] == ncs[b - 1]);
                        }
                    }
                    assert forall|c: int| 0 <= c < cs2.len() implies {
                        let ch = #[trigger] cs2[c];
                        &&& f.live@.contains(ch)
                        &&& ch != f.root
                        &&& f.parent@[ch] == node_id
                        &&& f.height@[ch] + 1 == f.height@[node_id]
                        &&& f.lo@[ch] == f.child_lo(node_id, ks2, c)
                        &&& f.hi@[ch] == f.child_hi(node_id, ks2, c)
                    } by {
                        if c > 0 {
                            assert(cs2[c] == ncs[c - 1]);
                            assert(ncs[c - 1] != bc) by {
                                assert(o.parent@[ncs[c - 1]] == node_id);
                            }
                            if c > 1 {
                                assert(ks2[c - 1] == nks[c - 2]);
                            }
                            if c < ks2.len() {
                                assert(ks2[c] == nks[c - 1]);
                            }
                        } else {
                            assert(lcs[n + 1] == bc);
                        }
                    }
                }
                assert(f.wf_node(parent_id)) by {
                    let ks2 = pk.update(child_idx - 1, k);
                    if child_idx >= 2 {
                        assert(o.lo@[left_id] == pk[child_idx - 2]);
                    }
                    assert forall|i: int| 0 <= i < ks2.len() implies f.strictly_in(parent_id, #[trigger] ks2[i] as int) by {
                        if i == child_idx - 1 {
                            assert(o.lo@[parent_id] <= o.lo@[left_id]);
                            assert(o.strictly_in(parent_id, pk[i] as int));
                        } else {
                            assert(o.strictly_in(parent_id, pk[i] as int));
                        }
                    }
                    assert(sorted(ks2)) by {
                        assert forall|a: int, b: int| 0 <= a < b < ks2.len() implies ks2[a] < ks2[b] by {
                            if b == child_idx - 1 {
                                assert(pk[a] <= pk[child_idx - 2]);
                            } else if a == child_idx - 1 {
                                assert(pk[child_idx - 1] < pk[b]);
                            }
                        }
                    }
                    assert forall|c: int| 0 <= c < pc.len() implies {
                        let ch = #[trigger] pc[c];
                        &&& f.live@.contains(ch)
                        &&& ch != f.root
                        &&& f.parent@[ch] == parent_id
                        &&& f.height@[ch] + 1 == f.height@[parent_id]
                        &&& f.lo@[ch] == f.child_lo(parent_id, ks2, c)
                        &&& f.hi@[ch] == f.child_hi(parent_id, ks2, c)
                    } by {
                        if c != child_idx - 1 && c != child_idx {
                            assert(pc[c] != left_id && pc[c] != node_id);
                        }
                    }
                }
                assert forall|x: usize| #[trigger] f.live@.contains(x) implies f.wf_node(x) by {
                    if x != parent_id && x != left_id && x != node_id {
                        assert(o.wf_node(x));
                        if !f.is_leaf(x) {
                            let ch = children_of(f.node(x));
                            assert forall|c: int| 0 <= c < ch.len() implies #[trigger] ch[c] != left_id && ch[c] != node_id
                                && ch[c] != bc by {
                                if ch[c] == left_id || ch[c] == node_id || ch[c] == bc {
                                    assert(o.parent@[ch[c]] == x);
                                }
                            }
                        }
                    }
                }
                assert forall|x: usize| #[trigger] f.live@.contains(x) && f.is_leaf(x) implies f.leaf_ok(x) by {
                    assert(f.wf_node(x));
                }
                assert forall|a: usize, b: usize, j: int|
                    f.live@.contains(a) && f.live@.contains(b) && f.is_leaf(a) && f.is_leaf(b)
                        && #[trigger] f.in_range(a, j) && #[trigger] f.in_range(b, j) implies a == b by {
                    assert(o.in_range(a, j) && o.in_range(b, j));
                }
                assert forall|k2: u16, v: u64| #[trigger] f.holds(k2, v) <==> o.holds(k2, v) by {
                    if f.holds(k2, v) {
                        let (l, i) = choose|l: usize, i: int| #[trigger] f.has_entry(l, i, k2) && entries_of(f.node(l))[i].page_id == v;
                        assert(o.has_entry(l, i, k2));
                    }
                    if o.holds(k2, v) {
                        let (l, i) = choose|l: usize, i: int| #[trigger] o.has_entry(l, i, k2) && entries_of(o.node(l))[i].page_id == v;
                        assert(f.has_entry(l, i, k2));
                    }
                }
                assert(f.linked()) by { lemma_linked_frame(&o, &f); }
                lemma_view_same(&o, &f);
                assert forall|x: usize| #[trigger] o.live@.contains(x) && o.height@[x] > o.height@[parent_id] implies x
                    != left_id && x != node_id && x != parent_id by {
                }
            }
        }
    }
}

impl BPlusTree {
    /// Moves the first entry (or key and child) of `right_id` to the end of its left
    /// sibling `node_id`, fixing the key between them in `parent_id`.
    #[verifier::rlimit(80)]
    fn borrow_from_right(&mut self, parent_id: usize, child_idx: usize, node_id: usize, right_id: usize)
        requires
            old(self).wf(),
            child_idx + 1 < children_of(old(self).node(parent_id)).len(),
            old(self).siblings(parent_id, child_idx + 1, node_id, right_id),
            old(self).size_of(right_id) > old(self).m / 2,
        ensures
            stepped(&*old(self), &*final(self), parent_id),
            lent_leftward(&*old(self), &*final(self), parent_id, child_idx as int, node_id, right_id),
    {
        proof {
            assert(self.wf_node(parent_id));
            assert(self.wf_node(right_id));
            assert(self.wf_node(node_id));
        }
        let is_leaf = matches!(self.nodes[node_id], Node::Leaf { .. });
        let ghost pk = keys_of(self.node(parent_id));
        let ghost pc = children_of(self.node(parent_id));
        let ghost sep = pk[child_idx as int];
        if is_leaf {
            let node = self.take_node(right_id);
            let (mut rentries, rnext) = leaf_parts(node);
            let ghost res = rentries@;
            let borrowed = rentries.remove(0);
            let new_right_first_key = rentries[0].record_id;
            self.nodes[right_id] = Node::Leaf { entries: rentries, next: rnext };
            let node = self.take_node(node_id);
            let (mut entries, next) = leaf_parts(node);
            let ghost nes = entries@;
            entries.push(borrowed);
            self.nodes[node_id] = Node::Leaf { entries, next };
            let node = self.take_node(parent_id);
            let (mut keys, children) = internal_parts(node);
            keys.set(child_idx, new_right_first_key);
            self.nodes[parent_id] = Node::Internal { keys, children };
            self.hi = Ghost(self.hi@.insert(node_id, new_right_first_key as int));
            self.lo = Ghost(self.lo@.insert(right_id, new_right_first_key as int));
            proof {
                let o = *old(self);
                let f = *self;
                let k = new_right_first_key;
                let e = res[0];
                assert(o.is_leaf(right_id)) by {
                    assert(o.height@[right_id] == o.height@[node_id]);
                }
                assert(right_id != node_id && right_id != parent_id && node_id != parent_id);
                assert(res[1].record_id == k);
                assert(ekeys(res)[0] == res[0].record_id && ekeys(res)[1] == res[1].record_id);
                assert(o.in_range(right_id, res[0].record_id as int));
                assert(o.in_range(right_id, res[1].record_id as int));
                assert(sep <= e.record_id < k);
                assert(entries_of(f.node(right_id)) =~= res.subrange(1, res.len() as int));
                assert(entries_of(f.node(node_id)) =~= nes.push(e));
                assert(keys_of(f.node(parent_id)) =~= pk.update(child_idx as int, k));
                assert(children_of(f.node(parent_id)) == pc);
                assert(f.leaf_ok(right_id)) by {
                    assert(ekeys(res.subrange(1, res.len() as int)) =~= ekeys(res).subrange(1, res.len() as int));
                    assert forall|i: int| 0 <= i < res.len() - 1 implies f.in_range(right_id, #[trigger] res.subrange(1, res.len() as int)[i].record_id as int) by {
                        assert(ekeys(res)[i + 1] == res[i + 1].record_id);
                        assert(o.in_range(right_id, res[i + 1].record_id as int));
                    }
                }
                assert(f.leaf_ok(node_id)) by {
                    let es2 = nes.push(e);
                    assert forall|i: int| 0 <= i < nes.len() implies nes[i].record_id < sep && o.in_range(node_id, nes[i].record_id as int) by {
                        assert(o.in_range(node_id, #[trigger] nes[i].record_id as int));
                    }
                    assert(sorted(ekeys(es2))) by {
                        assert forall|a: int, b: int| 0 <= a < b < ekeys(es2).len() implies ekeys(es2)[a] < ekeys(es2)[b] by {
                            assert(ekeys(es2)[a] == nes[a].record_id);
                            if b < nes.len() {
                                assert(ekeys(es2)[b] == nes[b].record_id);
                                assert(ekeys(nes)[a] == nes[a].record_id && ekeys(nes)[b] == nes[b].record_id);
                            }
                        }
                    }
                    assert forall|i: int| 0 <= i < es2.len() implies f.in_range(node_id, #[trigger] es2[i].record_id as int) by {
                        if i < nes.len() {
                            assert(es2[i] == nes[i]);
                        }
                    }
                }
                assert(f.wf_node(parent_id)) by {
                    let ks2 = pk.update(child_idx as int, k);
                    if child_idx + 1 < pk.len() {
                        assert(o.hi@[right_id] == pk[child_idx + 1]);
                    }
                    assert forall|i: int| 0 <= i < ks2.len() implies f.strictly_in(parent_id, #[trigger] ks2[i] as int) by {
                        assert(o.strictly_in(parent_id, pk[i] as int));
                        if i == child_idx {
                            assert(o.hi@[right_id] <= o.hi@[parent_id]);
                        }
                    }
                    assert(sorted(ks2)) by {
                        assert forall|a: int, b: int| 0 <= a < b < ks2.len() implies ks2[a] < ks2[b] by {
                            if a == child_idx {
                                assert(pk[child_idx + 1] <= pk[b]);
                            } else if b == child_idx {
                                assert(pk[a] < pk[child_idx as int]);
                            }
                        }
                    }
                    assert forall|c: int| 0 <= c < pc.len() implies {
                        let ch = #[trigger] pc[c];
                        &&& f.live@.contains(ch)
                        &&& ch != f.root
                        &&& f.parent@[ch] == parent_id
                        &&& f.height@[ch] + 1 == f.height@[parent_id]
                        &&& f.lo@[ch] == f.child_lo(parent_id, ks2, c)
                        &&& f.hi@[ch] == f.child_hi(parent_id, ks2, c)
                    } by {
                        if c != child_idx && c != child_idx + 1 {
                            assert(pc[c] != right_id && pc[c] != node_id);
                        }
                    }
                }
                assert forall|x: usize| #[trigger] f.live@.contains(x) implies f.wf_node(x) by {
                    if x != parent_id && x != right_id && x != node_id {
                        assert(o.wf_node(x));
                        if !f.is_leaf(x) {
                            let ch = children_of(f.node(x));
                            assert forall|c: int| 0 <= c < ch.len() implies #[trigger] ch[c] != right_id && ch[c] != node_id by {
                                if ch[c] == right_id || ch[c] == node_id {
                                    assert(o.parent@[ch[c]] == x);
                                }
                            }
                        }
                    }
                }
                assert forall|x: usize| #[trigger] f.live@.contains(x) && f.is_leaf(x) implies f.leaf_ok(x) by {
                    assert(f.wf_node(x));
                }
                assert forall|a: usize, b: usize, j: int|
                    f.live@.contains(a) && f.live@.contains(b) && f.is_leaf(a) && f.is_leaf(b)
                        && #[trigger] f.in_range(a, j) && #[trigger] f.in_range(b, j) implies a == b by {
                    let a0 = if a == node_id && j >= sep { right_id } else { a };
                    let b0 = if b == node_id && j >= sep { right_id } else { b };
                    assert(o.in_range(a0, j) && o.in_range(b0, j));
                    if a0 == b0 && a != b {
                        assert((a == node_id && b == right_id) || (a == right_id && b == node_id));
                    }
                }
                assert forall|k2: u16, v: u64| #[trigger] f.holds(k2, v) <==> o.holds(k2, v) by {
                    if f.holds(k2, v) {
                        let (l, i) = choose|l: usize, i: int| #[trigger] f.has_entry(l, i, k2) && entries_of(f.node(l))[i].page_id == v;
                        if l == node_id {
                            if i == nes.len() {
                                assert(o.has_entry(right_id, 0, k2));
                            } else {
                                assert(o.has_entry(node_id, i, k2));
                            }
                        } else if l == right_id {
                            assert(o.has_entry(right_id, i + 1, k2));
                        } else {
                            assert(o.has_entry(l, i, k2));
                        }
                    }
                    if o.holds(k2, v) {
                        let (l, i) = choose|l: usize, i: int| #[trigger] o.has_entry(l, i, k2) && entries_of(o.node(l))[i].page_id == v;
                        if l == right_id && i == 0 {
                            assert(f.has_entry(node_id, nes.len() as int, k2));
                        } else if l == right_id {
                            assert(f.has_entry(right_id, i - 1, k2));
                        } else {
                            assert(f.has_entry(l, i, k2));
                        }
                    }
                }
                assert(f.linked()) by { lemma_linked_shift(&o, &f, node_id, right_id, k as int); }
                lemma_view_same(&o, &f);
                assert forall|x: usize| #[trigger] o.live@.contains(x) && o.height@[x] > o.height@[parent_id] implies x
                    != right_id && x != node_id && x != parent_id by {
                }
            }
        } else {
            let node = self.take_node(right_id);
            let (mut rkeys, mut rchildren) = internal_parts(node);
            let ghost rks = rkeys@;
            let ghost rcs = rchildren@;
            let borrowed_key = rkeys.remove(0);
            let borrowed_child = rchildren.remove(0);
            self.nodes[right_id] = Node::Internal { keys: rkeys, children: rchildren };
            let parent_key = match &self.nodes[parent_id] {
                Node::Internal { keys, .. } => keys[child_idx],
                Node::Leaf { .. } => 0,
            };
            let node = self.take_node(node_id);
            let (mut keys, mut children) = internal_parts(node);
            let ghost nks = keys@;
            let ghost ncs = children@;
            keys.push(parent_key);
            children.push(borrowed_child);
            self.nodes[node_id] = Node::Internal { keys, children };
            let node = self.take_node(parent_id);
            let (mut pkeys, pchildren) = internal_parts(node);
            pkeys.set(child_idx, borrowed_key);
            self.nodes[parent_id] = Node::Internal { keys: pkeys, children: pchildren };
            self.hi = Ghost(self.hi@.insert(node_id, borrowed_key as int));
            self.lo = Ghost(self.lo@.insert(right_id, borrowed_key as int));
            self.parent = Ghost(self.parent@.insert(borrowed_child, node_id));
            proof {
                let o = *old(self);
                let f = *self;
                let k = borrowed_key;
                let bc = borrowed_child;
                assert(!o.is_leaf(right_id)) by {
                    assert(o.height@[right_id] == o.height@[node_id]);
                }
                assert(right_id != node_id && right_id != parent_id && node_id != parent_id);
                assert(rks[0] == k && rcs[0] == bc);
                assert(o.strictly_in(right_id, k as int));
                assert(o.live@.contains(bc) && o.parent@[bc] == right_id);
                assert(bc != parent_id && bc != right_id && bc != node_id);
                assert(keys_of(f.node(right_id)) =~= rks.subrange(1, rks.len() as int));
                assert(children_of(f.node(right_id)) =~= rcs.subrange(1, rcs.len() as int));
                assert(keys_of(f.node(node_id)) =~= nks.push(sep));
                assert(children_of(f.node(node_id)) =~= ncs.push(bc));
                assert(keys_of(f.node(parent_id)) =~= pk.update(child_idx as int, k));
                assert(children_of(f.node(parent_id)) == pc);
                assert(f.wf_node(right_id)) by {
                    let ks2 = rks.subrange(1, rks.len() as int);
                    let cs2 = rcs.subrange(1, rcs.len() as int);
                    assert forall|i: int| 0 <= i < ks2.len() implies f.strictly_in(right_id, #[trigger] ks2[i] as int) by {
                        assert(o.strictly_in(right_id, rks[i + 1] as int));
                    }
                    assert forall|a: int, b: int|
                        0 <= a < cs2.len() && 0 <= b < cs2.len() && a != b implies #[trigger] cs2[a] != #[trigger] cs2[b] by {
                        assert(cs2[a] == rcs[a + 1] && cs2[b] == rcs[b + 1]);
                    }
                    assert forall|c: int| 0 <= c < cs2.len() implies {
                        let ch = #[trigger] cs2[c];
                        &&& f.live@.contains(ch)
                        &&& ch != f.root
                        &&& f.parent@[ch] == right_id
                        &&& f.height@[ch] + 1 == f.height@[right_id]
                        &&& f.lo@[ch] == f.child_lo(right_id, ks2, c)
                        &&& f.hi@[ch] == f.child_hi(right_id, ks2, c)
                    } by {
                        assert(cs2[c] == rcs[c + 1]);
                        assert(rcs[c + 1] != bc);
                    }
                }
                assert(f.wf_node(node_id)) by {
                    let ks2 = nks.push(sep);
                    let cs2 = ncs.push(bc);
                    assert forall|i: int| 0 <= i < nks.len() implies nks[i] < sep && o.strictly_in(node_id, nks[i] as int) by {
                        assert(o.strictly_in(node_id, #[trigger] nks[i] as int));
                    }
                    assert(sorted(ks2)) by {
                        assert forall|a: int, b: int| 0 <= a < b < ks2.len() implies ks2[a] < ks2[b] by {
                            assert(ks2[a] == nks[a]);
                            if b < nks.len() {
                                assert(ks2[b] == nks[b]);
                            }
                        }
                    }
                    assert forall|i: int| 0 <= i < ks2.len() implies f.strictly_in(node_id, #[trigger] ks2[i] as int) by {
                        if i < nks.len() {
                            assert(ks2[i] == nks[i]);
                        }
                    }
                    assert forall|a: int, b: int|
                        0 <= a < cs2.len() && 0 <= b < cs2.len() && a != b implies #[trigger] cs2[a] != #[trigger] cs2[b] by {
                        if a == ncs.len() && b < ncs.len() {
                            assert(cs2[b] == ncs[b]);
                            assert(o.parent@[ncs[b]] == node_id);
                        } else if b == ncs.len() && a < ncs.len() {
                            assert(cs2[a] == ncs[a]);
                            assert(o.parent@[ncs[a]] == node_id);
                        } else if a < ncs.len() && b < ncs.len() {
                            assert(cs2[a] == ncs[a] && cs2[b] == ncs[b]);
                        }
                    }
                    assert forall|c: int| 0 <= c < cs2.len() implies {
                        let ch = #[trigger] cs2[c];
                        &&& f.live@.contains(ch)
                        &&& ch != f.root
                        &&& f.parent@[ch] == node_id
                        &&& f.height@[ch] + 1 == f.height@[node_id]
                        &&& f.lo@[ch] == f.child_lo(node_id, ks2, c)
                        &&& f.hi@[ch] == f.child_hi(node_id, ks2, c)
                    } by {
                        if c < ncs.len() {
                            assert(cs2[c] == ncs[c]);
                            assert(ncs[c] != bc) by {
                                assert(o.parent@[ncs[c]] == node_id);
                            }
                            if c > 0 {
                                assert(ks2[c - 1] == nks[c - 1]);
                            }
                            if c < nks.len() {
                                assert(ks2[c] == nks[c]);
                            }
                        } else {
                            assert(rcs[0] == bc);
                        }
                    }
                }
                assert(f.wf_node(parent_id)) by {
                    let ks2 = pk.update(child_idx as int, k);
                    if child_idx + 1 < pk.len() {
                        assert(o.hi@[right_id] == pk[child_idx + 1]);
                    }
                    assert forall|i: int| 0 <= i < ks2.len() implies f.strictly_in(parent_id, #[trigger] ks2[i] as int) by {
                        assert(o.strictly_in(parent_id, pk[i] as int));
                        if i == child_idx {
                            assert(o.hi@[right_id] <= o.hi@[parent_id]);
                        }
                    }
                    assert(sorted(ks2)) by {
                        assert forall|a: int, b: int| 0 <= a < b < ks2.len() implies ks2[a] < ks2[b] by {
                            if a == child_idx {
                                assert(pk[child_idx + 1] <= pk[b]);
                            } else if b == child_idx {
                                assert(pk[a] < pk[child_idx as int]);
                            }
                        }
                    }
                    assert forall|c: int| 0 <= c < pc.len() implies {
                        let ch = #[trigger] pc[c];
                        &&& f.live@.contains(ch)
                        &&& ch != f.root
                        &&& f.parent@[ch] == parent_id
                        &&& f.height@[ch] + 1 == f.height@[parent_id]
                        &&& f.lo@[ch] == f.child_lo(parent_id, ks2, c)
                        &&& f.hi@[ch] == f.child_hi(parent_id, ks2, c)
                    } by {
                        if c != child_idx && c != child_idx + 1 {
                            assert(pc[c] != right_id && pc[c] != node_id);
                        }
                    }
                }
                assert forall|x: usize| #[trigger] f.live@.contains(x) implies f.wf_node(x) by {
                    if x != parent_id && x != right_id && x != node_id {
                        assert(o.wf_node(x));
                        if !f.is_leaf(x) {
                            let ch = children_of(f.node(x));
                            assert forall|c: int| 0 <= c < ch.len() implies #[trigger] ch[c] != right_id && ch[c] != node_id
                                && ch[c] != bc by {
                                if ch[c] == right_id || ch[c] == node_id || ch[c] == bc {
                                    assert(o.parent@[ch[c]] == x);
                                }
                            }
                        }
                    }
                }
                assert forall|x: usize| #[trigger] f.live@.contains(x) && f.is_leaf(x) implies f.leaf_ok(x) by {
                    assert(f.wf_node(x));
                }
                assert forall|a: usize, b: usize, j: int|
                    f.live@.contains(a) && f.live@.contains(b) && f.is_leaf(a) && f.is_leaf(b)
                        && #[trigger] f.in_range(a, j) && #[trigger] f.in_range(b, j) implies a == b by {
                    assert(o.in_range(a, j) && o.in_range(b, j));
                }
                assert forall|k2: u16, v: u64| #[trigger] f.holds(k2, v) <==> o.holds(k2, v) by {
                    if f.holds(k2, v) {
                        let (l, i) = choose|l: usize, i: int| #[trigger] f.has_entry(l, i, k2) && entries_of(f.node(l))[i].page_id == v;
                        assert(o.has_entry(l, i, k2));
                    }
                    if o.holds(k2, v) {
                        let (l, i) = choose|l: usize, i: int| #[trigger] o.has_entry(l, i, k2) && entries_of(o.node(l))[i].page_id == v;
                        assert(f.has_entry(l, i, k2));
                    }
                }
                assert(f.linked()) by { lemma_linked_frame(&o, &f); }
                lemma_view_same(&o, &f);
                assert forall|x: usize| #[trigger] o.live@.contains(x) && o.height@[x] > o.height@[parent_id] implies x
                    != right_id && x != node_id && x != parent_id by {
                }
            }
        }
    }
}

impl BPlusTree {
    /// Moves everything of `right_id` into its left sibling `left_id` (for internal nodes,
    /// with the key between them from `parent_id`), drops the key and the child from
    /// `parent_id`, and trashes `right_id`.
    #[verifier::rlimit(100)]
    fn merge_nodes(&mut self, parent_id: usize, left_idx: usize, left_id: usize, right_id: usize)
        requires
            old(self).wf(),
            left_idx + 1 < children_of(old(self).node(parent_id)).len(),
            old(self).siblings(parent_id, left_idx + 1, left_id, right_id),
        ensures
            stepped(&*old(self), &*final(self), parent_id),
            merged(&*old(self), &*final(self), parent_id, left_idx as int, left_id, right_id),
    {
        proof {
            assert(self.wf_node(parent_id));
            assert(self.wf_node(right_id));
            assert(self.wf_node(left_id));
            assert(self.is_leaf(left_id) == self.is_leaf(right_id)) by {
                assert(self.height@[right_id] == self.height@[left_id]);
            }
        }
        let is_leaf = matches!(self.nodes[left_id], Node::Leaf { .. });
        let ghost pk = keys_of(self.node(parent_id));
        let ghost pc = children_of(self.node(parent_id));
        let ghost sep = pk[left_idx as int];
        let ghost right_hi = self.hi@[right_id];
        let ghost rcs = children_of(self.node(right_id));
        if is_leaf {
            let node = self.take_node(right_id);
            let (mut right_entries, right_next) = leaf_parts(node);
            self.nodes[right_id] = Node::Leaf { entries: Vec::new(), next: right_next };
            let node = self.take_node(left_id);
            let (mut entries, _next) = leaf_parts(node);
            entries.append(&mut right_entries);
            self.nodes[left_id] = Node::Leaf { entries, next: right_next };
        } else {
            let sep_key = match &self.nodes[parent_id] {
                Node::Internal { keys, .. } => keys[left_idx],
                Node::Leaf { .. } => 0,
            };
            let node = self.take_node(right_id);
            let (mut right_keys, mut right_children) = internal_parts(node);
            self.nodes[right_id] = Node::Internal { keys: Vec::new(), children: Vec::new() };
            let node = self.take_node(left_id);
            let (mut keys, mut children) = internal_parts(node);
            keys.push(sep_key);
            keys.append(&mut right_keys);
            children.append(&mut right_children);
            self.nodes[left_id] = Node::Internal { keys, children };
            let ghost par = self.parent@;
            self.parent = Ghost(
                Map::new(|x: usize| true, |x: usize| if rcs.contains(x) { left_id } else { par[x] }),
            );
        }
        let node = self.take_node(parent_id);
        let (mut keys, mut children) = internal_parts(node);
        assert(left_idx + 1 < children.len());
        keys.remove(left_idx);
        children.remove(left_idx + 1);
        self.nodes[parent_id] = Node::Internal { keys, children };
        self.trash.push(right_id);
        self.live = Ghost(self.live@.remove(right_id));
        self.hi = Ghost(self.hi@.insert(left_id, right_hi));
        proof {
            let o = *old(self);
            let f = *self;
            let lcs = children_of(o.node(left_id));
            assert(left_id != right_id && left_id != parent_id && right_id != parent_id);
            assert(o.hi@[left_id] == sep && o.lo@[right_id] == sep);
            assert(keys_of(f.node(parent_id)) =~= pk.remove(left_idx as int));
            assert(children_of(f.node(parent_id)) =~= pc.remove(left_idx + 1));
            assert(f.wf_node(parent_id)) by {
                let ks2 = pk.remove(left_idx as int);
                let cs2 = pc.remove(left_idx + 1);
                assert forall|i: int| 0 <= i < ks2.len() implies f.strictly_in(parent_id, #[trigger] ks2[i] as int) by {
                    if i < left_idx {
                        assert(o.strictly_in(parent_id, pk[i] as int));
                    } else {
                        assert(o.strictly_in(parent_id, pk[i + 1] as int));
                    }
                }
                assert forall|a: int, b: int|
                    0 <= a < cs2.len() && 0 <= b < cs2.len() && a != b implies #[trigger] cs2[a] != #[trigger] cs2[b] by {
                    let a0 = if a <= left_idx { a } else { a + 1 };
                    let b0 = if b <= left_idx { b } else { b + 1 };
                    assert(cs2[a] == pc[a0] && cs2[b] == pc[b0]);
                }
                assert forall|c: int| 0 <= c < cs2.len() implies {
                    let ch = #[trigger] cs2[c];
                    &&& f.live@.contains(ch)
                    &&& ch != f.root
                    &&& f.parent@[ch] == parent_id
                    &&& f.height@[ch] + 1 == f.height@[parent_id]
                    &&& f.lo@[ch] == f.child_lo(parent_id, ks2, c)
                    &&& f.hi@[ch] == f.child_hi(parent_id, ks2, c)
                } by {
                    if c <= left_idx {
                        assert(cs2[c] == pc[c]);
                        assert(c != left_idx ==> pc[c] != left_id);
                        assert(pc[c] != right_id);
                        if c > 0 {
                            assert(ks2[c - 1] == pk[c - 1]);
                        }
                        if c < ks2.len() {
                            if c < left_idx {
                                assert(ks2[c] == pk[c]);
                            } else {
                                assert(ks2[c] == pk[c + 1]);
                            }
                        }
                    } else {
                        assert(cs2[c] == pc[c + 1]);
                        assert(pc[c + 1] != left_id && pc[c + 1] != right_id);
                        assert(ks2[c - 1] == pk[c]);
                        if c < ks2.len() {
                            assert(ks2[c] == pk[c + 1]);
                        }
                    }
                    if !is_leaf {
                        assert(!rcs.contains(cs2[c])) by {
                            if rcs.contains(cs2[c]) {
                                let d = choose|d: int| 0 <= d < rcs.len() && rcs[d] == cs2[c];
                                assert(o.parent@[rcs[d]] == right_id);
                            }
                        }
                    }
                }
            }
            if is_leaf {
                let les = entries_of(o.node(left_id));
                let res = entries_of(o.node(right_id));
                let es2 = les + res;
                assert(entries_of(f.node(left_id)) =~= es2);
                assert(f.leaf_ok(left_id)) by {
                    assert forall|i: int| 0 <= i < es2.len() implies f.in_range(left_id, #[trigger] es2[i].record_id as int) by {
                        if i < les.len() {
                            assert(es2[i] == les[i]);
                            assert(o.in_range(left_id, les[i].record_id as int));
                        } else {
                            assert(es2[i] == res[i - les.len()]);
                            assert(o.in_range(right_id, res[i - les.len()].record_id as int));
                        }
                    }
                    assert(sorted(ekeys(es2))) by {
                        assert forall|a: int, b: int| 0 <= a < b < ekeys(es2).len() implies ekeys(es2)[a] < ekeys(es2)[b] by {
                            assert(ekeys(es2)[a] == es2[a].record_id && ekeys(es2)[b] == es2[b].record_id);
                            if b < les.len() {
                                assert(ekeys(les)[a] == les[a].record_id && ekeys(les)[b] == les[b].record_id);
                            } else if a >= les.len() {
                                assert(ekeys(res)[a - les.len()] == res[a - les.len()].record_id);
                                assert(ekeys(res)[b - les.len()] == res[b - les.len()].record_id);
                            } else {
                                assert(o.in_range(left_id, les[a].record_id as int));
                                assert(o.in_range(right_id, res[b - les.len()].record_id as int));
                            }
                        }
                    }
                }
                assert forall|x: usize| #[trigger] f.live@.contains(x) implies f.wf_node(x) by {
                    if x != parent_id && x != left_id {
                        assert(o.wf_node(x));
                        if !f.is_leaf(x) {
                            let ch = children_of(f.node(x));
                            assert forall|c: int| 0 <= c < ch.len() implies #[trigger] ch[c] != left_id && ch[c] != right_id by {
                                if ch[c] == left_id || ch[c] == right_id {
                                    assert(o.parent@[ch[c]] == x);
                                }
                            }
                        }
                    }
                }
                assert forall|k2: u16, v: u64| #[trigger] f.holds(k2, v) <==> o.holds(k2, v) by {
                    if f.holds(k2, v) {
                        let (l, i) = choose|l: usize, i: int| #[trigger] f.has_entry(l, i, k2) && entries_of(f.node(l))[i].page_id == v;
                        if l == left_id && i >= les.len() {
                            assert(o.has_entry(right_id, i - les.len(), k2));
                        } else {
                            assert(o.has_entry(l, i, k2));
                        }
                    }
                    if o.holds(k2, v) {
                        let (l, i) = choose|l: usize, i: int| #[trigger] o.has_entry(l, i, k2) && entries_of(o.node(l))[i].page_id == v;
                        if l == right_id {
                            assert(f.has_entry(left_id, i + les.len(), k2));
                        } else {
                            assert(f.has_entry(l, i, k2));
                        }
                    }
                }
            } else {
                let lks = keys_of(o.node(left_id));
                let rks = keys_of(o.node(right_id));
                let ks2 = lks.push(sep) + rks;
                let cs2 = lcs + rcs;
                assert(keys_of(f.node(left_id)) =~= ks2);
                assert(children_of(f.node(left_id)) =~= cs2);
                assert forall|x: usize| rcs.contains(x) implies o.parent@[x] == right_id && o.live@.contains(x) by {
                    let d = choose|d: int| 0 <= d < rcs.len() && rcs[d] == x;
                }
                assert forall|x: usize| lcs.contains(x) implies o.parent@[x] == left_id && !rcs.contains(x) by {
                    let d = choose|d: int| 0 <= d < lcs.len() && lcs[d] == x;
                }
                assert(f.wf_node(left_id)) by {
                    assert forall|i: int| 0 <= i < ks2.len() implies f.strictly_in(left_id, #[trigger] ks2[i] as int) by {
                        if i < lks.len() {
                            assert(ks2[i] == lks[i]);
                            assert(o.strictly_in(left_id, lks[i] as int));
                        } else if i > lks.len() {
                            assert(ks2[i] == rks[i - lks.len() - 1]);
                            assert(o.strictly_in(right_id, rks[i - lks.len() - 1] as int));
                        }
                    }
                    assert(sorted(ks2)) by {
                        assert forall|a: int, b: int| 0 <= a < b < ks2.len() implies ks2[a] < ks2[b] by {
                            if a < lks.len() {
                                assert(o.strictly_in(left_id, lks[a] as int));
                            } else if a > lks.len() {
                                assert(ks2[a] == rks[a - lks.len() - 1]);
                            }
                            if b > lks.len() {
                                assert(ks2[b] == rks[b - lks.len() - 1]);
                                assert(o.strictly_in(right_id, rks[b - lks.len() - 1] as int));
                            } else if b < lks.len() {
                                assert(ks2[b] == lks[b]);
                            }
                        }
                    }
                    assert forall|a: int, b: int|
                        0 <= a < cs2.len() && 0 <= b < cs2.len() && a != b implies #[trigger] cs2[a] != #[trigger] cs2[b] by {
                        if a < lcs.len() && b >= lcs.len() {
                            assert(lcs.contains(cs2[a]) && rcs.contains(cs2[b]));
                        } else if b < lcs.len() && a >= lcs.len() {
                            assert(lcs.contains(cs2[b]) && rcs.contains(cs2[a]));
                        } else if a >= lcs.len() {
                            assert(cs2[a] == rcs[a - lcs.len()] && cs2[b] == rcs[b - lcs.len()]);
                        }
                    }
                    assert forall|c: int| 0 <= c < cs2.len() implies {
                        let ch = #[trigger] cs2[c];
                        &&& f.live@.contains(ch)
                        &&& ch != f.root
                        &&& f.parent@[ch] == left_id
                        &&& f.height@[ch] + 1 == f.height@[left_id]
                        &&& f.lo@[ch] == f.child_lo(left_id, ks2, c)
                        &&& f.hi@[ch] == f.child_hi(left_id, ks2, c)
                    } by {
                        if c < lcs.len() {
                            assert(cs2[c] == lcs[c]);
                            assert(lcs.contains(lcs[c]));
                            assert(lcs[c] != right_id && lcs[c] != left_id);
                            if c > 0 {
                                assert(ks2[c - 1] == lks[c - 1]);
                            }
                            if c < lks.len() {
                                assert(ks2[c] == lks[c]);
                            }
                        } else {
                            let d = c - lcs.len();
                            assert(cs2[c] == rcs[d]);
                            assert(rcs.contains(rcs[d]));
                            assert(rcs[d] != right_id && rcs[d] != left_id);
                            if d > 0 {
                                assert(ks2[c - 1] == rks[d - 1]);
                            }
                            if d < rks.len() {
                                assert(ks2[c] == rks[d]);
                            }
                        }
                    }
                }
                assert forall|x: usize| #[trigger] f.live@.contains(x) implies f.wf_node(x) by {
                    if x != parent_id && x != left_id {
                        assert(o.wf_node(x));
                        if !f.is_leaf(x) {
                            let ch = children_of(f.node(x));
                            assert forall|c: int| 0 <= c < ch.len() implies #[trigger] ch[c] != left_id && ch[c] != right_id
                                && !rcs.contains(ch[c]) by {
                                if ch[c] == left_id || ch[c] == right_id || rcs.contains(ch[c]) {
                                    assert(o.parent@[ch[c]] == x);
                                }
                            }
                        }
                    }
                }
                assert forall|k2: u16, v: u64| #[trigger] f.holds(k2, v) <==> o.holds(k2, v) by {
                    if f.holds(k2, v) {
                        let (l, i) = choose|l: usize, i: int| #[trigger] f.has_entry(l, i, k2) && entries_of(f.node(l))[i].page_id == v;
                        assert(o.has_entry(l, i, k2));
                    }
                    if o.holds(k2, v) {
                        let (l, i) = choose|l: usize, i: int| #[trigger] o.has_entry(l, i, k2) && entries_of(o.node(l))[i].page_id == v;
                        assert(f.has_entry(l, i, k2));
                    }
                }
            }
            assert forall|x: usize| #[trigger] f.live@.contains(x) && f.is_leaf(x) implies f.leaf_ok(x) by {
                assert(f.wf_node(x));
            }
            assert forall|a: usize, b: usize, j: int|
                f.live@.contains(a) && f.live@.contains(b) && f.is_leaf(a) && f.is_leaf(b)
                    && #[trigger] f.in_range(a, j) && #[trigger] f.in_range(b, j) implies a == b by {
                let a0 = if a == left_id && j >= sep { right_id } else { a };
                let b0 = if b == left_id && j >= sep { right_id } else { b };
                assert(o.in_range(a0, j) && o.in_range(b0, j));
            }
            assert forall|k: int| 0 <= k < f.trash@.len() implies #[trigger] f.trash@[k] < f.nodes@.len()
                && !f.live@.contains(f.trash@[k]) by {
                if k < o.trash@.len() {
                    assert(o.trash@[k] == f.trash@[k]);
                }
            }
            assert forall|k: int, l: int|
                0 <= k < f.trash@.len() && 0 <= l < f.trash@.len() && k != l implies #[trigger] f.trash@[k]
                    != #[trigger] f.trash@[l] by {
                if k < o.trash@.len() {
                    assert(o.trash@[k] == f.trash@[k]);
                }
                if l < o.trash@.len() {
                    assert(o.trash@[l] == f.trash@[l]);
                }
            }
            assert(f.linked()) by { if is_leaf { lemma_linked_merge(&o, &f, left_id, right_id); } else { lemma_linked_frame(&o, &f); } }
            lemma_view_same(&o, &f);
            assert forall|x: usize| #[trigger] o.live@.contains(x) && o.height@[x] > o.height@[parent_id] implies x
                != left_id && x != right_id && x != parent_id by {
            }
        }
    }
}


/// Handing the root to the only child of an internal root with no keys keeps the tree
/// well formed and its map unchanged.
pub proof fn lemma_root_collapse(o: &BPlusTree, f: &BPlusTree, child: usize)
    requires
        o.wf(),
        !o.is_leaf(o.root),
        keys_of(o.node(o.root)).len() == 0,
        children_of(o.node(o.root)).len() == 1,
        children_of(o.node(o.root))[0] == child,
        f.root == child,
        f.live@ == o.live@.remove(o.root),
        f.nodes == o.nodes,
        f.trash == o.trash,
        f.m == o.m,
        f.height == o.height,
        f.lo == o.lo,
        f.hi == o.hi,
        f.parent == o.parent,
    ensures
        f.wf(),
        f@ == o@,
{
    assert(o.wf_node(o.root));
    assert(o.live@.contains(child) && child != o.root && o.parent@[child] == o.root);
    assert forall|x: usize| #[trigger] f.live@.contains(x) implies f.wf_node(x) by {
        assert(o.wf_node(x));
        if !f.is_leaf(x) {
            let ch = children_of(f.node(x));
            assert forall|c: int| 0 <= c < ch.len() implies #[trigger] ch[c] != child && ch[c] != o.root by {
                if ch[c] == child {
                    assert(o.parent@[ch[c]] == x);
                }
            }
        }
    }
    assert forall|x: usize| #[trigger] f.live@.contains(x) && f.is_leaf(x) implies f.leaf_ok(x) by {
        assert(o.leaf_ok(x));
    }
    assert forall|a: usize, b: usize, j: int|
        f.live@.contains(a) && f.live@.contains(b) && f.is_leaf(a) && f.is_leaf(b)
            && #[trigger] f.in_range(a, j) && #[trigger] f.in_range(b, j) implies a == b by {
        assert(o.in_range(a, j) && o.in_range(b, j));
    }
    assert forall|k: u16, v: u64| #[trigger] f.holds(k, v) <==> o.holds(k, v) by {
        if f.holds(k, v) {
            let (l, i) = choose|l: usize, i: int| #[trigger] f.has_entry(l, i, k) && entries_of(f.node(l))[i].page_id == v;
            assert(o.has_entry(l, i, k));
        }
        if o.holds(k, v) {
            let (l, i) = choose|l: usize, i: int| #[trigger] o.has_entry(l, i, k) && entries_of(o.node(l))[i].page_id == v;
            assert(f.has_entry(l, i, k));
        }
    }
    lemma_view_same(o, f);
}


/// After a rebalancing step at the parent that ends `path`, the rest of the path leads to
/// that parent.
pub proof fn lemma_path_up(s0: &BPlusTree, s1: &BPlusTree, path: Seq<(usize, usize)>, node: usize, parent_id: usize)
    requires
        s0.wf(),
        s0.path_ok(path, node),
        path.len() > 0,
        path.last().0 == parent_id,
        s1.root == s0.root,
        s1.live@.contains(parent_id),
        s1.height@[parent_id] == s0.height@[parent_id],
        forall|x: usize|
            #[trigger] s0.live@.contains(x) && s0.height@[x] > s0.height@[parent_id] ==> {
                &&& s1.live@.contains(x)
                &&& s1.nodes@[x as int] == s0.nodes@[x as int]
                &&& s1.height@[x] == s0.height@[x]
            },
    ensures
        s1.path_ok(path.drop_last(), parent_id),
{
    let pp = path.drop_last();
    let n = path.len();
    assert(s0.height@[parent_id] == s0.height@[node] + 1);
    assert forall|k: int| 0 <= k < pp.len() implies {
        &&& s1.live@.contains(#[trigger] pp[k].0)
        &&& !s1.is_leaf(pp[k].0)
        &&& pp[k].1 < children_of(s1.node(pp[k].0)).len()
        &&& children_of(s1.node(pp[k].0))[pp[k].1 as int] == (if k + 1 < pp.len() {
            pp[k + 1].0
        } else {
            parent_id
        })
        &&& s1.height@[pp[k].0] == s1.height@[parent_id] + (pp.len() - k)
    } by {
        assert(pp[k] == path[k]);
        assert(s0.live@.contains(path[k].0));
        assert(s0.height@[path[k].0] > s0.height@[parent_id]);
        if k + 1 == pp.len() {
            assert(path[k + 1].0 == parent_id);
        } else {
            assert(pp[k + 1] == path[k + 1]);
        }
    }
    if n == 1 {
        assert(path[0].0 == parent_id);
    }
}

/// Merging underfull `node`, child `c` of `p`, with its left sibling if it has one, or
/// else with its right sibling.
pub open spec fn merged_at(o: &BPlusTree, f: &BPlusTree, p: usize, c: int, node: usize) -> bool {
    let pc = children_of(o.node(p));
    if c > 0 {
        merged(o, f, p, c - 1, pc[c - 1], node)
    } else {
        merged(o, f, p, c, node, pc[c + 1])
    }
}

/// What rebalancing `node`, reached from the root by `path`, makes of the tree `o`.
/// At the root, an internal root with no keys and a single child hands the root to that
/// child; any other root is left as it is. Below the root, a node that is not underfull
/// is left as it is. An underfull node, child `c` of `p`, borrows from its left sibling if
/// that one can lend, or else from its right sibling if that one can lend; otherwise it
/// merges with a sibling, and rebalancing goes on at `p`.
pub open spec fn rebalanced(o: BPlusTree, f: BPlusTree, node: usize, path: Seq<(usize, usize)>) -> bool
    decreases path.len(),
{
    if path.len() == 0 {
        let cs = children_of(o.node(node));
        if !o.is_leaf(node) && keys_of(o.node(node)).len() == 0 && cs.len() == 1 {
            &&& f.root == cs[0]
            &&& f.live@ == o.live@.remove(node)
            &&& f.nodes == o.nodes
            &&& f.trash == o.trash
            &&& f.m == o.m
            &&& f.height == o.height
            &&& f.lo == o.lo
            &&& f.hi == o.hi
            &&& f.parent == o.parent
        } else {
            f == o
        }
    } else if o.size_of(node) >= o.m / 2 {
        f == o
    } else {
        let p = path.last().0;
        let c = path.last().1 as int;
        let pc = children_of(o.node(p));
        if c > 0 && o.size_of(pc[c - 1]) > o.m / 2 {
            stepped(&o, &f, p) && lent_rightward(&o, &f, p, c, pc[c - 1], node)
        } else if c + 1 < pc.len() && o.size_of(pc[c + 1]) > o.m / 2 {
            stepped(&o, &f, p) && lent_leftward(&o, &f, p, c, node, pc[c + 1])
        } else if c > 0 || c + 1 < pc.len() {
            exists|s: BPlusTree|
                #[trigger] merged_at(&o, &s, p, c, node) && stepped(&o, &s, p) && rebalanced(
                    s,
                    f,
                    p,
                    path.drop_last(),
                )
        } else {
            rebalanced(o, f, p, path.drop_last())
        }
    }
}

/// Taking the entry with key `j` out of leaf `l` of `o` leaves `m`: the leaf keeps its other
/// entries in order and its link, and nothing else changes.
pub open spec fn entry_removed(o: &BPlusTree, m: &BPlusTree, l: usize, j: u16) -> bool {
    let es = entries_of(o.node(l));
    &&& o.live@.contains(l)
    &&& o.is_leaf(l)
    &&& m.is_leaf(l)
    &&& exists|i: int| 0 <= i < es.len() && #[trigger] es[i].record_id == j && entries_of(m.node(l)) == es.remove(i)
    &&& m.node(l)->Leaf_next == o.node(l)->Leaf_next
    &&& others_kept(o, m, l, l, l)
    &&& m.root == o.root
    &&& m.trash == o.trash
    &&& m.m == o.m
    &&& m.live == o.live
    &&& m.height == o.height
    &&& m.lo == o.lo
    &&& m.hi == o.hi
    &&& m.parent == o.parent
}

/// How a deletion of `j` from `o` gives `f`: the entry is taken out of the leaf `l` that
/// `path` leads to, giving `m`, and `m` is then rebalanced from `l` up along `path`.
pub open spec fn deleted_via(
    o: &BPlusTree,
    m: &BPlusTree,
    f: &BPlusTree,
    l: usize,
    path: Seq<(usize, usize)>,
    j: u16,
) -> bool {
    &&& entry_removed(o, m, l, j)
    &&& m.path_ok(path, l)
    &&& rebalanced(*m, *f, l, path)
}

/// Taking entry `pos`, with key `j`, out of leaf `l` of a well-formed tree, and changing
/// nothing else, leaves a well-formed tree whose map has lost `j`.
proof fn lemma_entry_removed(o: &BPlusTree, s: &BPlusTree, l: usize, pos: int, j: u16)
    requires
        o.wf(),
        o.live@.contains(l),
        o.is_leaf(l),
        0 <= pos < entries_of(o.node(l)).len(),
        entries_of(o.node(l))[pos].record_id == j,
        s.is_leaf(l),
        entries_of(s.node(l)) == entries_of(o.node(l)).remove(pos),
        s.node(l)->Leaf_next == o.node(l)->Leaf_next,
        changed_one(o, s, l),
        s.live == o.live,
        s.height == o.height,
        s.lo == o.lo,
        s.hi == o.hi,
        s.parent == o.parent,
        s.m == o.m,
    ensures
        s.wf(),
        o@.contains_key(j),
        s@ == o@.remove(j),
{
    let leaf_id = l;
    let record_id = j;
    let es = entries_of(o.node(l));
    let o = *o;
    let s = *s;
    assert(o.leaf_ok(leaf_id));
    let es2 = es.remove(pos as int);
    assert(o.has_entry(leaf_id, pos as int, record_id));
    lemma_view_holds(&o, record_id, es[pos as int].page_id);
    assert(entries_of(s.node(leaf_id)) == es2);
    assert(ekeys(es2) =~= ekeys(es).remove(pos as int));
    assert(s.leaf_ok(leaf_id)) by {
        assert forall|i: int| 0 <= i < es2.len() implies s.in_range(leaf_id, #[trigger] es2[i].record_id as int) by {
            if i < pos {
                assert(es2[i] == es[i]);
            } else {
                assert(es2[i] == es[i + 1]);
            }
        }
    }
    assert forall|x: usize| #[trigger] s.live@.contains(x) implies s.wf_node(x) by {
        if x != leaf_id {
            assert(o.wf_node(x));
        }
    }
    assert forall|x: usize| #[trigger] s.live@.contains(x) && s.is_leaf(x) implies s.leaf_ok(x) by {
        assert(s.wf_node(x));
    }
    assert forall|a: usize, b: usize, j: int|
        s.live@.contains(a) && s.live@.contains(b) && s.is_leaf(a) && s.is_leaf(b)
            && #[trigger] s.in_range(a, j) && #[trigger] s.in_range(b, j) implies a == b by {
        assert(o.in_range(a, j) && o.in_range(b, j));
    }
    assert forall|k: u16, v: u64| #[trigger] s.holds(k, v) <==> (k != record_id && o.holds(k, v)) by {
        if s.holds(k, v) {
            let (l, i) = choose|l: usize, i: int| #[trigger] s.has_entry(l, i, k) && entries_of(s.node(l))[i].page_id == v;
            if l == leaf_id {
                if i < pos {
                    assert(o.has_entry(leaf_id, i, k));
                    assert(ekeys(es)[i] == es[i].record_id && ekeys(es)[pos as int] == es[pos as int].record_id);
                } else {
                    assert(o.has_entry(leaf_id, i + 1, k));
                    assert(ekeys(es)[i + 1] == es[i + 1].record_id && ekeys(es)[pos as int] == es[pos as int].record_id);
                }
            } else {
                assert(o.has_entry(l, i, k));
                assert(o.leaf_ok(l));
                if k == record_id {
                    assert(o.in_range(l, k as int) && o.in_range(leaf_id, k as int));
                }
            }
        }
        if k != record_id && o.holds(k, v) {
            let (l, i) = choose|l: usize, i: int| #[trigger] o.has_entry(l, i, k) && entries_of(o.node(l))[i].page_id == v;
            if l == leaf_id {
                if i < pos {
                    assert(s.has_entry(leaf_id, i, k));
                } else {
                    assert(i != pos);
                    assert(s.has_entry(leaf_id, i - 1, k));
                }
            } else {
                assert(s.has_entry(l, i, k));
            }
        }
    }
    assert(s.linked()) by {
        lemma_linked_frame(&o, &s);
    }
    lemma_view_remove(&o, &s, record_id);
}

impl BPlusTree {
    /// `path` lists, from the root down, the internal nodes above `node` and the child
    /// taken at each.
    pub open spec fn path_ok(&self, path: Seq<(usize, usize)>, node: usize) -> bool {
        &&& self.live@.contains(node)
        &&& (path.len() == 0 ==> node == self.root)
        &&& (path.len() > 0 ==> path[0].0 == self.root)
        &&& forall|k: int|
            0 <= k < path.len() ==> {
                &&& self.live@.contains(#[trigger] path[k].0)
                &&& !self.is_leaf(path[k].0)
                &&& path[k].1 < children_of(self.node(path[k].0)).len()
                &&& children_of(self.node(path[k].0))[path[k].1 as int] == (if k + 1 < path.len() {
                    path[k + 1].0
                } else {
                    node
                })
                &&& self.height@[path[k].0] == self.height@[node] + (path.len() - k)
            }
    }

    /// Restores the fill of `node_id` after a deletion below the nodes of `path`: an
    /// underfull node borrows from a sibling that can lend, or else merges with one, and
    /// a merge goes on at the parent. A root left with a single child hands the root to
    /// that child.
    #[verifier::rlimit(100)]
    fn rebalance(&mut self, node_id: usize, path: &[(usize, usize)])
        requires
            old(self).wf(),
            old(self).path_ok(path@, node_id),
        ensures
            final(self).wf(),
            final(self)@ == old(self)@,
            final(self).m == old(self).m,
            rebalanced(*old(self), *final(self), node_id, path@),
        decreases path@.len(),
    {
        let underflow = match &self.nodes[node_id] {
            Node::Leaf { entries, .. } => entries.len() < self.min_size(),
            Node::Internal { keys, .. } => keys.len() < self.min_size(),
        };
        if path.is_empty() {
            let new_root = match &self.nodes[node_id] {
                Node::Internal { keys, children } => {
                    if keys.is_empty() && children.len() == 1 {
                        Some(children[0])
                    } else {
                        None
                    }
                },
                Node::Leaf { .. } => None,
            };
            if let Some(child) = new_root {
                proof {
                    assert(self.wf_node(node_id));
                    assert(children_of(self.node(node_id))[0] == child);
                }
                self.root = child;
                self.live = Ghost(self.live@.remove(node_id));
                proof {
                    lemma_root_collapse(&*old(self), &*self, child);
                }
            }
            return;
        }
        if !underflow {
            return;
        }
        let (parent_id, child_idx) = *path.last().unwrap();
        let parent_path = &path[0..path.len() - 1];
        proof {
            let k = path@.len() - 1;
            assert(path@[k] == (parent_id, child_idx));
            assert(self.wf_node(parent_id));
            assert(child_idx < children_of(self.node(parent_id)).len());
        }
        let (left_sib, right_sib) = match &self.nodes[parent_id] {
            Node::Internal { children, .. } => {
                proof {
                    assert(children@ == children_of(self.node(parent_id)));
                    assert(child_idx < children.len());
                }
                (
                    if child_idx > 0 {
                        Some(children[child_idx - 1])
                    } else {
                        None
                    },
                    if child_idx + 1 < children.len() {
                        Some(children[child_idx + 1])
                    } else {
                        None
                    },
                )
            },
            Node::Leaf { .. } => (None, None),
        };
        proof {
            let pc = children_of(self.node(parent_id));
            if child_idx > 0 {
                assert(self.live@.contains(pc[child_idx - 1]));
            }
            if child_idx + 1 < pc.len() {
                assert(self.live@.contains(pc[child_idx + 1]));
            }
        }
        if let Some(left_id) = left_sib {
            if self.can_lend(left_id) {
                self.borrow_from_left(parent_id, child_idx, left_id, node_id);
                return;
            }
        }
        if let Some(right_id) = right_sib {
            if self.can_lend(right_id) {
                self.borrow_from_right(parent_id, child_idx, node_id, right_id);
                return;
            }
        }
        let ghost s0 = *self;
        if let Some(left_id) = left_sib {
            self.merge_nodes(parent_id, child_idx - 1, left_id, node_id);
        } else if let Some(right_id) = right_sib {
            self.merge_nodes(parent_id, child_idx, node_id, right_id);
        }
        let ghost s1 = *self;
        proof {
            assert(parent_path@ =~= path@.drop_last());
            lemma_path_up(&s0, &*self, path@, node_id, parent_id);
        }
        self.rebalance(parent_id, parent_path);
        proof {
            let o = *old(self);
            assert(path@.last() == (parent_id, child_idx));
            if left_sib is Some || right_sib is Some {
                assert(merged_at(&o, &s1, parent_id, child_idx as int, node_id));
                assert(stepped(&o, &s1, parent_id));
            } else {
                assert(s1 == o);
            }
        }
    }

    /// The leaf whose range holds `record_id`, and the path of internal nodes, with the child
    /// taken at each, that leads to it from the root.
    fn path_to_leaf(&self, record_id: u16) -> (r: (usize, Vec<(usize, usize)>))
        requires
            self.wf(),
        ensures
            self.live@.contains(r.0),
            self.is_leaf(r.0),
            self.in_range(r.0, record_id as int),
            self.path_ok(r.1@, r.0),
    {
        let mut path: Vec<(usize, usize)> = Vec::new();
        let mut curr = self.root;
        loop
            invariant
                self.wf(),
                self.live@.contains(curr),
                self.in_range(curr, record_id as int),
                self.path_ok(path@, curr),
            ensures
                self.wf(),
                self.live@.contains(curr),
                self.in_range(curr, record_id as int),
                self.path_ok(path@, curr),
                self.is_leaf(curr),
            decreases self.height@[curr],
        {
            let is_leaf = matches!(self.nodes[curr], Node::Leaf { .. });
            if is_leaf {
                break;
            }
            proof {
                assert(self.wf_node(curr));
            }
            let idx = match &self.nodes[curr] {
                Node::Internal { keys, .. } => partition_point(keys, record_id),
                Node::Leaf { .. } => 0,
            };
            proof {
                lemma_pp(keys_of(self.node(curr)), record_id as int);
            }
            let ghost p0 = path@;
            path.push((curr, idx));
            let next = match &self.nodes[curr] {
                Node::Internal { children, .. } => children[idx],
                Node::Leaf { .. } => 0,
            };
            proof {
                let p1 = path@;
                assert(self.live@.contains(next));
                assert forall|k: int| 0 <= k < p1.len() implies {
                    &&& self.live@.contains(#[trigger] p1[k].0)
                    &&& !self.is_leaf(p1[k].0)
                    &&& p1[k].1 < children_of(self.node(p1[k].0)).len()
                    &&& children_of(self.node(p1[k].0))[p1[k].1 as int] == (if k + 1 < p1.len() {
                        p1[k + 1].0
                    } else {
                        next
                    })
                    &&& self.height@[p1[k].0] == self.height@[next] + (p1.len() - k)
                } by {
                    if k < p0.len() {
                        assert(p1[k] == p0[k]);
                        if k + 1 < p0.len() {
                            assert(p1[k + 1] == p0[k + 1]);
                        }
                    }
                }
            }
            curr = next;
        }
        (curr, path)
    }

    /// Removes `record_id`; `RecordAbsent`, with the tree unchanged, if it is not there.
    #[verifier::rlimit(100)]
    #[verifier::spinoff_prover]
    pub fn delete(&mut self, record_id: u16) -> (res: Result<(), DbError>)
        requires
            old(self).wf(),
        ensures
            final(self).wf(),
            final(self).m == old(self).m,
            match res {
                Ok(()) => old(self)@.contains_key(record_id) && final(self)@ == old(self)@.remove(record_id),
                Err(e) => e == DbError::RecordAbsent && !old(self)@.contains_key(record_id) && *final(self) == *old(self),
            },
            res is Ok ==> exists|mid: BPlusTree, l: usize, path: Seq<(usize, usize)>|
                #[trigger] deleted_via(&*old(self), &mid, &*final(self), l, path, record_id),
    {
        let (curr, path) = self.path_to_leaf(record_id);
        let leaf_id = curr;
        proof {
            assert(self.leaf_ok(leaf_id));
        }
        let pos = match &self.nodes[leaf_id] {
            Node::Leaf { entries, .. } => match search_entries(entries, record_id) {
                Ok(i) => i,
                Err(_) => {
                    proof {
                        if self@.contains_key(record_id) {
                            let (l, i) = choose|l: usize, i: int| #[trigger] self.has_entry(l, i, record_id);
                            assert(self.leaf_ok(l));
                            assert(self.in_range(l, record_id as int));
                            assert(l == leaf_id);
                        }
                    }
                    return Err(DbError::RecordAbsent);
                },
            },
            Node::Internal { .. } => 0,
        };
        let node = self.take_node(leaf_id);
        let (mut entries, next) = leaf_parts(node);
        let ghost es = entries@;
        entries.remove(pos);
        self.nodes[leaf_id] = Node::Leaf { entries, next };
        let ghost mid = *self;
        proof {
            let o = *old(self);
            let s = *self;
            assert(changed_one(&o, &s, leaf_id));
            lemma_entry_removed(&o, &s, leaf_id, pos as int, record_id);
            assert forall|k: int| 0 <= k < path@.len() implies #[trigger] path@[k].0 != leaf_id by {
            }
        }
        self.rebalance(leaf_id, path.as_slice());
        proof {
            let o = *old(self);
            let es = entries_of(o.node(leaf_id));
            assert(es[pos as int].record_id == record_id);
            assert(entry_removed(&o, &mid, leaf_id, record_id));
            assert(deleted_via(&o, &mid, &*self, leaf_id, path@, record_id));
        }
        Ok(())
    }
}

/// A search for a key just inserted finds the page it was inserted with, and a search for
/// any other key answers as before the insertion.
pub proof fn law_search_after_insert(m: Map<u16, u64>, j: u16, p: u64, k: u16)
    ensures
        search_result(m.insert(j, p), j) == Ok::<u64, DbError>(p),
        k != j ==> search_result(m.insert(j, p), k) == search_result(m, k),
{
}

/// A search for a key just deleted finds nothing, and a search for any other key answers
/// as before the deletion.
pub proof fn law_search_after_delete(m: Map<u16, u64>, j: u16, k: u16)
    ensures
        search_result(m.remove(j), j) == Err::<u64, DbError>(DbError::RecordAbsent),
        k != j ==> search_result(m.remove(j), k) == search_result(m, k),
{
}

/// Deleting a key just inserted into a tree that did not hold it gives back the map the
/// tree had before.
pub proof fn law_insert_then_delete(m: Map<u16, u64>, j: u16, p: u64)
    requires
        !m.contains_key(j),
    ensures
        m.insert(j, p).remove(j) == m,
{
    assert(m.insert(j, p).remove(j) =~= m);
}

} // verus!
