use vstd::prelude::*;

verus! {

/// One byte-edge of the trie; siblings form a singly linked list.
#[derive(Clone, Copy, Debug)]
struct TrieNode {
    key: u8,
    next_idx: usize,
    child_first_idx: usize,
    child_last_idx: usize,
    data_idx: Option<usize>,
}

/// Arena trie from byte paths to values. Node 0 is the root and never holds data.
pub struct Trie<V> {
    values: Vec<Option<V>>,
    values_free_list: Vec<usize>,
    nodes: Vec<TrieNode>,
    nodes_free_list: Vec<usize>,
    /// the mapping that the trie stores
    contents: Ghost<Map<Seq<u8>, V>>,
    /// node index of each path that has a live node (the root is the empty path)
    index: Ghost<Map<Seq<u8>, usize>>,
    /// path of each live node
    paths: Ghost<Map<usize, Seq<u8>>>,
    /// children of each live node, in sibling-list order
    kids: Ghost<Map<usize, Seq<usize>>>,
    /// live node that owns each used value slot
    owner: Ghost<Map<usize, usize>>,
    /// bound on the length of every live path
    height: Ghost<nat>,
}

/// Whether `k` extends `p` (or equals it).
pub open spec fn extends(k: Seq<u8>, p: Seq<u8>) -> bool {
    p.len() <= k.len() && k.subrange(0, p.len() as int) == p
}

/// Whether the key `k` occurs in the listing `r`.
pub open spec fn listed(r: Seq<Vec<u8>>, k: Seq<u8>) -> bool {
    exists|i: int| 0 <= i < r.len() && (#[trigger] r[i])@ == k
}


/// The paths that need a node when `m` is stored: the root's empty path and
/// every prefix of a stored key.
pub open spec fn node_paths<V>(m: Map<Seq<u8>, V>) -> Set<Seq<u8>> {
    Set::new(|p: Seq<u8>| p.len() == 0 || exists|k: Seq<u8>| m.contains_key(k) && extends(k, p))
}

/// Whether `k` extends `p` by at least one byte.
pub open spec fn strictly_extends(k: Seq<u8>, p: Seq<u8>) -> bool {
    k.len() > p.len() && extends(k, p)
}

/// No key occurs twice in the listing `r`.
pub open spec fn distinct_keys(r: Seq<Vec<u8>>) -> bool {
    forall|i: int, j: int| 0 <= i < j < r.len() ==> (#[trigger] r[i])@ != (#[trigger] r[j])@
}

/// In the listing `r` every key comes before the keys that extend it.
pub open spec fn prefixes_first(r: Seq<Vec<u8>>) -> bool {
    forall|i: int, j: int|
        0 <= i < j < r.len() ==> !strictly_extends((#[trigger] r[i])@, (#[trigger] r[j])@)
}

proof fn lemma_extends_trans(x: Seq<u8>, q: Seq<u8>, p: Seq<u8>)
    requires
        extends(x, q),
        extends(q, p),
    ensures
        extends(x, p),
{
    assert(x.subrange(0, p.len() as int) =~= x.subrange(0, q.len() as int).subrange(
        0,
        p.len() as int,
    ));
}

proof fn lemma_push_keeps_order(s: Seq<Vec<u8>>, x: Vec<u8>)
    requires
        distinct_keys(s),
        prefixes_first(s),
        forall|i: int| 0 <= i < s.len() ==> (#[trigger] s[i])@ != x@ && !strictly_extends(s[i]@, x@),
    ensures
        distinct_keys(s.push(x)),
        prefixes_first(s.push(x)),
{
    let t = s.push(x);
    assert forall|i: int, j: int| 0 <= i < j < t.len() implies (#[trigger] t[i])@ != (#[trigger] t[j])@
        && !strictly_extends(t[i]@, t[j]@) by {
        assert(t[i] == s[i]);
        if j < s.len() {
            assert(t[j] == s[j]);
        }
    }
}

/// A copy of the first `n` bytes of `b`.
fn copy_prefix(b: &[u8], n: usize) -> (r: Vec<u8>)
    requires
        n <= b@.len(),
    ensures
        r@ == b@.subrange(0, n as int),
{
    let mut r: Vec<u8> = Vec::new();
    let mut i: usize = 0;
    while i < n
        invariant
            n <= b@.len(),
            i <= n,
            r@ == b@.subrange(0, i as int),
        decreases n - i,
    {
        r.push(b[i]);
        i = i + 1;
        assert(r@ =~= b@.subrange(0, i as int));
    }
    r
}

proof fn lemma_listed_push(s: Seq<Vec<u8>>, x: Vec<u8>, k: Seq<u8>)
    ensures
        listed(s.push(x), k) == (listed(s, k) || x@ == k),
{
    if listed(s, k) {
        let i = choose|i: int| 0 <= i < s.len() && (#[trigger] s[i])@ == k;
        assert(s.push(x)[i] == s[i]);
    }
    if x@ == k {
        assert(s.push(x)[s.len() as int] == x);
    }
    if listed(s.push(x), k) {
        let i = choose|i: int| 0 <= i < s.push(x).len() && (#[trigger] s.push(x)[i])@ == k;
        if i < s.len() {
            assert(s[i] == s.push(x)[i]);
        }
    }
}

/// Whether `k` extends the path of one of the first `j` nodes of `ks`.
spec fn covered(paths: Map<usize, Seq<u8>>, ks: Seq<usize>, j: int, k: Seq<u8>) -> bool {
    exists|m: int| 0 <= m < j && extends(k, paths[#[trigger] ks[m]])
}

impl<V> View for Trie<V> {
    type V = Map<Seq<u8>, V>;

    closed spec fn view(&self) -> Map<Seq<u8>, V> {
        self.contents@
    }
}

impl<V> Trie<V> {
    spec fn list_wf(&self, i: usize) -> bool {
        let ks = self.kids@[i];
        let n = self.nodes@[i as int];
        &&& ks.no_duplicates()
        &&& n.child_first_idx == (if ks.len() == 0 { 0usize } else { ks[0] })
        &&& n.child_last_idx == (if ks.len() == 0 { 0usize } else { ks.last() })
        &&& forall|j: int|
            0 <= j < ks.len() ==> {
                let c = #[trigger] ks[j];
                &&& c != 0
                &&& c < self.nodes@.len()
                &&& self.paths@.contains_key(c)
                &&& self.paths@[c] == self.paths@[i].push(self.nodes@[c as int].key)
                &&& self.nodes@[c as int].next_idx == (if j + 1 < ks.len() {
                    ks[j + 1]
                } else {
                    0usize
                })
            }
    }

    spec fn data_wf(&self, i: usize) -> bool {
        match self.nodes@[i as int].data_idx {
            Some(d) => {
                &&& d < self.values@.len()
                &&& self.contents@.contains_key(self.paths@[i])
                &&& self.values@[d as int] == Some(self.contents@[self.paths@[i]])
                &&& self.owner@.contains_key(d)
                &&& self.owner@[d] == i
            },
            None => !self.contents@.contains_key(self.paths@[i]),
        }
    }

    #[verifier::opaque]
    spec fn wf_index(&self) -> bool {
        forall|p: Seq<u8>|
            #[trigger] self.index@.contains_key(p) ==> {
                let i = self.index@[p];
                &&& i < self.nodes@.len()
                &&& self.paths@.contains_key(i)
                &&& self.paths@[i] == p
                &&& p.len() <= self.height@
            }
    }

    #[verifier::opaque]
    spec fn wf_nodes(&self) -> bool {
        forall|i: usize|
            #[trigger] self.paths@.contains_key(i) ==> {
                &&& self.index@.contains_key(self.paths@[i])
                &&& self.index@[self.paths@[i]] == i
                &&& self.kids@.contains_key(i)
                &&& i < self.nodes@.len()
                &&& self.list_wf(i)
                &&& self.data_wf(i)
            }
    }

    #[verifier::opaque]
    spec fn wf_up(&self) -> bool {
        forall|p: Seq<u8>|
            #[trigger] self.index@.contains_key(p) && p.len() > 0 ==> {
                &&& self.index@.contains_key(p.drop_last())
                &&& self.kids@[self.index@[p.drop_last()]].contains(self.index@[p])
            }
    }

    #[verifier::opaque]
    spec fn wf_contents(&self) -> bool {
        forall|k: Seq<u8>|
            #[trigger] self.contents@.contains_key(k) ==> k.len() > 0 && self.index@.contains_key(
                k,
            )
    }

    #[verifier::opaque]
    spec fn wf_owner(&self) -> bool {
        forall|d: usize|
            #[trigger] self.owner@.contains_key(d) ==> self.paths@.contains_key(self.owner@[d])
                && self.nodes@[self.owner@[d] as int].data_idx == Some(d)
    }

    #[verifier::opaque]
    spec fn wf_free(&self) -> bool {
        &&& self.values_free_list@.no_duplicates()
        &&& forall|m: int|
            0 <= m < self.values_free_list@.len() ==> {
                let f = #[trigger] self.values_free_list@[m];
                f < self.values@.len() && !self.owner@.contains_key(f)
            }
        &&& self.nodes_free_list@.no_duplicates()
        &&& forall|m: int|
            0 <= m < self.nodes_free_list@.len() ==> {
                let f = #[trigger] self.nodes_free_list@[m];
                0 < f < self.nodes@.len() && !self.paths@.contains_key(f)
            }
    }

    /// The structural invariant of the arena, but for pruning.
    spec fn wf_core(&self) -> bool {
        &&& self.nodes@.len() > 0
        &&& self.index@.contains_key(Seq::empty())
        &&& self.index@[Seq::empty()] == 0
        &&& self.wf_index()
        &&& self.wf_nodes()
        &&& self.wf_up()
        &&& self.wf_contents()
        &&& self.wf_owner()
        &&& self.wf_free()
        &&& self.index@.dom().finite()
        &&& self.nodes@.len() == self.index@.dom().len() + self.nodes_free_list@.len()
    }


    /// Every live node but the root and `x` holds a value or a child.
    #[verifier::opaque]
    spec fn pruned_except(&self, x: usize) -> bool {
        forall|i: usize|
            #[trigger] self.paths@.contains_key(i) && i != 0 && i != x ==> self.nodes@[i as int].data_idx
                is Some || self.kids@[i].len() > 0
    }

    /// The structural invariant of the arena: every node slot is live or free,
    /// and no live node but the root is left without a value and children.
    pub closed spec fn wf(&self) -> bool {
        self.wf_core() && self.pruned_except(0)
    }


    /// Moving the pruning exception from `a` to `b` is sound when `a` needs no
    /// exception.
    proof fn lemma_pruned_shift(&self, a: usize, b: usize)
        requires
            self.pruned_except(a),
            a == 0 || a == b || !self.paths@.contains_key(a) || self.nodes@[a as int].data_idx
                is Some || self.kids@[a].len() > 0,
        ensures
            self.pruned_except(b),
    {
        reveal(Trie::pruned_except);
    }

    /// What the invariant says of a live path.
    proof fn lemma_path(&self, p: Seq<u8>)
        requires
            self.wf_core(),
            self.index@.contains_key(p),
        ensures
            self.index@[p] < self.nodes@.len(),
            self.paths@.contains_key(self.index@[p]),
            self.paths@[self.index@[p]] == p,
            p.len() <= self.height@,
    {
        reveal(Trie::wf_index);
    }

    /// What the invariant says of a live node.
    proof fn lemma_node(&self, i: usize)
        requires
            self.wf_core(),
            self.paths@.contains_key(i),
        ensures
            self.index@.contains_key(self.paths@[i]),
            self.index@[self.paths@[i]] == i,
            self.kids@.contains_key(i),
            i < self.nodes@.len(),
            self.list_wf(i),
            self.data_wf(i),
    {
        reveal(Trie::wf_nodes);
    }

    /// The parent of a live non-empty path is live and lists it as a child.
    proof fn lemma_up(&self, p: Seq<u8>)
        requires
            self.wf_core(),
            self.index@.contains_key(p),
            p.len() > 0,
        ensures
            self.index@.contains_key(p.drop_last()),
            self.kids@[self.index@[p.drop_last()]].contains(self.index@[p]),
    {
        reveal(Trie::wf_up);
    }

    /// A stored key is non-empty and has a live node.
    proof fn lemma_key(&self, k: Seq<u8>)
        requires
            self.wf_core(),
            self.contents@.contains_key(k),
        ensures
            k.len() > 0,
            self.index@.contains_key(k),
    {
        reveal(Trie::wf_contents);
    }

    /// Number of node slots in the arena, live or free.
    pub closed spec fn arena_len(&self) -> nat {
        self.nodes@.len()
    }

    /// Number of node slots waiting on the free list.
    pub closed spec fn free_node_count(&self) -> nat {
        self.nodes_free_list@.len()
    }

    /// Number of value slots, used or free.
    pub closed spec fn value_arena_len(&self) -> nat {
        self.values@.len()
    }

    /// Number of value slots waiting on the free list.
    pub closed spec fn free_value_count(&self) -> nat {
        self.values_free_list@.len()
    }

    /// Number of nodes in use, the root included.
    pub closed spec fn live_node_count(&self) -> nat {
        self.index@.dom().len()
    }

    /// A live non-empty path has a stored key under it.
    proof fn lemma_key_below(&self, p: Seq<u8>) -> (k: Seq<u8>)
        requires
            self.wf(),
            self.index@.contains_key(p),
            p.len() > 0,
        ensures
            self@.contains_key(k),
            extends(k, p),
        decreases self.height@ - p.len(),
    {
        self.lemma_path(p);
        let i = self.index@[p];
        self.lemma_node(i);
        reveal(Trie::pruned_except);
        assert(i != 0) by {
            self.lemma_path(Seq::empty());
        }
        if self.nodes@[i as int].data_idx is Some {
            assert(p.subrange(0, p.len() as int) =~= p);
            p
        } else {
            self.lemma_kid_parent(i, 0);
            let c = self.kids@[i][0];
            let pc = self.paths@[c];
            self.lemma_node(c);
            self.lemma_path(pc);
            let k = self.lemma_key_below(pc);
            assert(pc.subrange(0, p.len() as int) =~= pc.drop_last());
            lemma_extends_trans(k, pc, p);
            k
        }
    }

    /// The live nodes are exactly the root and the prefixes of stored keys.
    proof fn lemma_live_paths(&self)
        requires
            self.wf(),
        ensures
            self.index@.dom() == node_paths(self@),
    {
        assert forall|p: Seq<u8>| self.index@.contains_key(p) == node_paths(self@).contains(p) by {
            if self.index@.contains_key(p) && p.len() > 0 {
                let k = self.lemma_key_below(p);
            }
            if node_paths(self@).contains(p) {
                if p.len() == 0 {
                    assert(p =~= Seq::<u8>::empty());
                } else {
                    let k = choose|k: Seq<u8>| self@.contains_key(k) && extends(k, p);
                    self.lemma_key(k);
                    self.lemma_prefix_live(k, p.len() as int);
                }
            }
        }
        assert(self.index@.dom() =~= node_paths(self@));
    }

    /// The nodes in use are the root and one node for each non-empty prefix of
    /// a stored key: removals prune every node that no key needs any more.
    pub proof fn lemma_live_nodes(&self)
        requires
            self.wf(),
        ensures
            node_paths(self@).finite(),
            self.live_node_count() == node_paths(self@).len(),
    {
        self.lemma_live_paths();
    }

    /// The empty path is never stored: the root holds no value.
    pub proof fn lemma_empty_key_absent(&self)
        requires
            self.wf(),
        ensures
            !self@.contains_key(Seq::empty()),
    {
        if self@.contains_key(Seq::empty()) {
            self.lemma_key(Seq::empty());
        }
    }

    /// No node slot leaks: every slot of the arena is either in use or on the
    /// free list, so nodes that removals prune are there for later inserts.
    pub proof fn lemma_arena_accounting(&self)
        requires
            self.wf(),
        ensures
            self.arena_len() == self.live_node_count() + self.free_node_count(),
    {
    }


    /// Every prefix of a live path is live.
    proof fn lemma_prefix_live(&self, p: Seq<u8>, n: int)
        requires
            self.wf_core(),
            self.index@.contains_key(p),
            0 <= n <= p.len(),
        ensures
            self.index@.contains_key(p.subrange(0, n)),
        decreases p.len(),
    {
        if n == p.len() {
            assert(p.subrange(0, n) =~= p);
        } else {
            self.lemma_up(p);
            let q = p.drop_last();
            self.lemma_prefix_live(q, n);
            assert(q.subrange(0, n) =~= p.subrange(0, n));
        }
    }

    /// The child of a live path `p` along byte `ch`, if there is one, is among
    /// the children of `p`'s node.
    proof fn lemma_child_listed(&self, parent: usize, ch: u8)
        requires
            self.wf_core(),
            self.paths@.contains_key(parent),
            self.index@.contains_key(self.paths@[parent].push(ch)),
        ensures
            self.kids@[parent].contains(self.index@[self.paths@[parent].push(ch)]),
            self.nodes@[self.index@[self.paths@[parent].push(ch)] as int].key == ch,
    {
        let q = self.paths@[parent].push(ch);
        assert(q.drop_last() =~= self.paths@[parent]);
        self.lemma_node(parent);
        self.lemma_up(q);
        self.lemma_path(q);
        let c = self.index@[q];
        let ks = self.kids@[parent];
        let j = choose|j: int| 0 <= j < ks.len() && ks[j] == c;
        assert(ks[j] == c);
        assert(self.paths@[c] == self.paths@[parent].push(self.nodes@[c as int].key));
        assert(self.paths@[c] == q);
        assert(q.last() == ch);
        assert(self.paths@[c].last() == self.nodes@[c as int].key);
    }

    /// Finds the child of `parent` along byte `ch`: its index (0 if absent),
    /// the previous sibling (0 if none) and its place among the siblings.
    fn find_child(&self, parent: usize, ch: u8) -> (r: (usize, usize, Ghost<int>))
        requires
            self.wf_core(),
            self.paths@.contains_key(parent),
        ensures
            (r.0 == 0) == !self.index@.contains_key(self.paths@[parent].push(ch)),
            r.0 != 0 ==> {
                let ks = self.kids@[parent];
                &&& self.index@[self.paths@[parent].push(ch)] == r.0
                &&& 0 <= r.2@ < ks.len()
                &&& ks[r.2@] == r.0
                &&& r.1 == (if r.2@ == 0 { 0usize } else { ks[r.2@ - 1] })
            },
    {
        let ghost ks = self.kids@[parent];
        proof {
            self.lemma_node(parent);
        }
        let mut node_idx = self.nodes[parent].child_first_idx;
        let mut prev_idx: usize = 0;
        let ghost mut j: int = 0;
        while node_idx > 0 && self.nodes[node_idx].key != ch
            invariant
                self.wf_core(),
                self.paths@.contains_key(parent),
                ks == self.kids@[parent],
                self.list_wf(parent),
                0 <= j <= ks.len(),
                node_idx == (if j < ks.len() { ks[j] } else { 0usize }),
                prev_idx == (if j == 0 { 0usize } else { ks[j - 1] }),
                forall|m: int| 0 <= m < j ==> self.nodes@[ks[m] as int].key != ch,
            decreases ks.len() - j,
        {
            assert(ks[j] == node_idx);
            prev_idx = node_idx;
            node_idx = self.nodes[node_idx].next_idx;
            proof {
                j = j + 1;
            }
        }
        let ghost q = self.paths@[parent].push(ch);
        if node_idx == 0 {
            proof {
                if self.index@.contains_key(q) {
                    self.lemma_child_listed(parent, ch);
                    let c = self.index@[q];
                    let m = choose|m: int| 0 <= m < ks.len() && ks[m] == c;
                    assert(self.nodes@[ks[m] as int].key != ch);
                }
            }
        } else {
            assert(ks[j] == node_idx);
            assert(self.paths@[node_idx] == q);
            proof {
                self.lemma_node(node_idx);
            }
        }
        (node_idx, prev_idx, Ghost(j))
    }

    /// Finds the node of the path `key[0..n]`, if it is live.
    fn find_node(&self, key: &[u8], n: usize) -> (r: Option<usize>)
        requires
            self.wf_core(),
            n <= key@.len(),
        ensures
            r.is_some() == self.index@.contains_key(key@.subrange(0, n as int)),
            r.is_some() ==> r->0 == self.index@[key@.subrange(0, n as int)]
                && self.paths@.contains_key(r->0),
    {
        let mut cur: usize = 0;
        let mut depth: usize = 0;
        assert(key@.subrange(0, 0) =~= Seq::<u8>::empty());
        while depth < n
            invariant
                self.wf_core(),
                depth <= n,
                n <= key@.len(),
                self.index@.contains_key(key@.subrange(0, depth as int)),
                cur == self.index@[key@.subrange(0, depth as int)],
            decreases n - depth,
        {
            let ghost p = key@.subrange(0, depth as int);
            proof {
                self.lemma_path(p);
            }
            let (c, _, _) = self.find_child(cur, key[depth]);
            assert(p.push(key@[depth as int]) =~= key@.subrange(0, depth + 1));
            if c == 0 {
                proof {
                    let whole = key@.subrange(0, n as int);
                    if self.index@.contains_key(whole) {
                        self.lemma_prefix_live(whole, depth + 1);
                        assert(whole.subrange(0, depth + 1) =~= key@.subrange(0, depth + 1));
                    }
                }
                return None;
            }
            cur = c;
            depth = depth + 1;
        }
        proof {
            self.lemma_path(key@.subrange(0, n as int));
        }
        Some(cur)
    }

    /// A child's path, less its last byte, leads back to its parent.
    proof fn lemma_kid_parent(&self, i: usize, j: int)
        requires
            self.wf_core(),
            self.paths@.contains_key(i),
            0 <= j < self.kids@[i].len(),
        ensures
            self.paths@.contains_key(self.kids@[i][j]),
            self.paths@[self.kids@[i][j]].len() == self.paths@[i].len() + 1,
            self.paths@[self.kids@[i][j]].drop_last() == self.paths@[i],
            self.index@[self.paths@[self.kids@[i][j]].drop_last()] == i,
    {
        self.lemma_node(i);
        let c = self.kids@[i][j];
        self.lemma_node(c);
        assert(self.paths@[c] == self.paths@[i].push(self.nodes@[c as int].key));
        assert(self.paths@[c].drop_last() =~= self.paths@[i]);
    }


    /// `t` is `old_t` with a fresh node `n` linked as the last child of `parent`
    /// along byte `ch`.
    spec fn linked(old_t: Self, t: Self, parent: usize, ch: u8, n: usize) -> bool {
        let ks = old_t.kids@[parent];
        let last = old_t.nodes@[parent as int].child_last_idx;
        let q = old_t.paths@[parent].push(ch);
        &&& old_t.wf_core()
        &&& old_t.paths@.contains_key(parent)
        &&& old_t.paths@[parent].len() < old_t.height@
        &&& !old_t.index@.contains_key(q)
        &&& n != 0
        &&& !old_t.paths@.contains_key(n)
        &&& n < t.nodes@.len()
        &&& t.nodes@[n as int] == (TrieNode {
            key: ch,
            next_idx: 0,
            child_first_idx: 0,
            child_last_idx: 0,
            data_idx: None,
        })
        &&& forall|i: int|
            0 <= i < t.nodes@.len() && i != n && i != parent && (ks.len() == 0 || i != last)
                ==> t.nodes@[i] == old_t.nodes@[i]
        &&& t.nodes@[parent as int] == (TrieNode {
            child_first_idx: if ks.len() == 0 {
                n
            } else {
                old_t.nodes@[parent as int].child_first_idx
            },
            child_last_idx: n,
            ..old_t.nodes@[parent as int]
        })
        &&& (ks.len() > 0 ==> t.nodes@[last as int] == (TrieNode {
            next_idx: n,
            ..old_t.nodes@[last as int]
        }))
        &&& ((old_t.nodes_free_list@.len() > 0 && t.nodes_free_list@
            == old_t.nodes_free_list@.drop_last() && n == old_t.nodes_free_list@.last()
            && t.nodes@.len() == old_t.nodes@.len()) || (old_t.nodes_free_list@.len() == 0
            && t.nodes_free_list@ == old_t.nodes_free_list@ && n == old_t.nodes@.len()
            && t.nodes@.len() == old_t.nodes@.len() + 1))
        &&& t.values@ == old_t.values@
        &&& t.values_free_list@ == old_t.values_free_list@
        &&& t.contents@ == old_t.contents@
        &&& t.owner@ == old_t.owner@
        &&& t.height@ == old_t.height@
        &&& t.index@ == old_t.index@.insert(q, n)
        &&& t.paths@ == old_t.paths@.insert(n, q)
        &&& t.kids@ == old_t.kids@.insert(n, Seq::empty()).insert(parent, ks.push(n))
    }

    proof fn lemma_link_node(old_t: Self, t: Self, parent: usize, ch: u8, n: usize, i: usize)
        requires
            Self::linked(old_t, t, parent, ch, n),
            t.paths@.contains_key(i),
        ensures
            t.index@.contains_key(t.paths@[i]),
            t.index@[t.paths@[i]] == i,
            t.kids@.contains_key(i),
            i < t.nodes@.len(),
            t.list_wf(i),
            t.data_wf(i),
    {
        let q = old_t.paths@[parent].push(ch);
        let ks = old_t.kids@[parent];
        let last = old_t.nodes@[parent as int].child_last_idx;
        old_t.lemma_node(parent);
        if ks.len() > 0 {
            old_t.lemma_kid_parent(parent, ks.len() - 1);
            assert(last != parent);
        }
        if i == n {
            if old_t.contents@.contains_key(q) {
                old_t.lemma_key(q);
            }
            assert(t.list_wf(i));
        } else if i == parent {
            let ks2 = ks.push(n);
            assert forall|j: int| 0 <= j < ks2.len() implies {
                let c = #[trigger] ks2[j];
                &&& c != 0
                &&& c < t.nodes@.len()
                &&& t.paths@.contains_key(c)
                &&& t.paths@[c] == t.paths@[i].push(t.nodes@[c as int].key)
                &&& t.nodes@[c as int].next_idx == (if j + 1 < ks2.len() {
                    ks2[j + 1]
                } else {
                    0usize
                })
            } by {
                if j < ks.len() {
                    assert(ks2[j] == ks[j]);
                    old_t.lemma_kid_parent(parent, j);
                    assert(ks[j] != parent);
                    assert(ks[j] != n);
                }
            }
            assert forall|a: int, b: int|
                0 <= a < ks2.len() && 0 <= b < ks2.len() && a != b implies ks2[a] != ks2[b] by {
                if a < ks.len() {
                    old_t.lemma_kid_parent(parent, a);
                }
                if b < ks.len() {
                    old_t.lemma_kid_parent(parent, b);
                }
            }
            assert(t.list_wf(i));
            assert(t.data_wf(i));
        } else {
            old_t.lemma_node(i);
            let ki = old_t.kids@[i];
            assert forall|j: int| 0 <= j < ki.len() implies ki[j] != last && ki[j] != n by {
                old_t.lemma_kid_parent(i, j);
                old_t.lemma_node(ki[j]);
            }
            assert(t.list_wf(i));
            assert(t.data_wf(i));
        }
    }

    /// Linking a fresh node keeps the invariant.
    proof fn lemma_link(old_t: Self, t: Self, parent: usize, ch: u8, n: usize)
        requires
            Self::linked(old_t, t, parent, ch, n),
        ensures
            t.wf_core(),
    {
        let q = old_t.paths@[parent].push(ch);
        let ks = old_t.kids@[parent];
        assert(q.drop_last() =~= old_t.paths@[parent]);
        old_t.lemma_node(parent);
        assert(t.index@.dom() =~= old_t.index@.dom().insert(q));
        assert(t.wf_index()) by {
            reveal(Trie::wf_index);
            assert forall|p: Seq<u8>| #[trigger] t.index@.contains_key(p) implies {
                let i = t.index@[p];
                &&& i < t.nodes@.len()
                &&& t.paths@.contains_key(i)
                &&& t.paths@[i] == p
                &&& p.len() <= t.height@
            } by {
                if p != q {
                    old_t.lemma_path(p);
                }
            }
        }
        assert(t.wf_nodes()) by {
            reveal(Trie::wf_nodes);
            assert forall|i: usize| #[trigger] t.paths@.contains_key(i) implies {
                &&& t.index@.contains_key(t.paths@[i])
                &&& t.index@[t.paths@[i]] == i
                &&& t.kids@.contains_key(i)
                &&& i < t.nodes@.len()
                &&& t.list_wf(i)
                &&& t.data_wf(i)
            } by {
                Self::lemma_link_node(old_t, t, parent, ch, n, i);
            }
        }
        assert(t.wf_up()) by {
            reveal(Trie::wf_up);
            assert forall|p: Seq<u8>| #[trigger] t.index@.contains_key(p) && p.len() > 0 implies {
                &&& t.index@.contains_key(p.drop_last())
                &&& t.kids@[t.index@[p.drop_last()]].contains(t.index@[p])
            } by {
                if p != q {
                    old_t.lemma_up(p);
                    old_t.lemma_path(p.drop_last());
                    old_t.lemma_path(p);
                    let pi = old_t.index@[p.drop_last()];
                    if pi == parent {
                        let m = choose|m: int| 0 <= m < ks.len() && ks[m] == old_t.index@[p];
                        assert(ks.push(n)[m] == ks[m]);
                    }
                } else {
                    assert(old_t.index@[old_t.paths@[parent]] == parent);
                    assert(ks.push(n)[ks.len() as int] == n);
                }
            }
        }
        assert(t.wf_contents()) by {
            reveal(Trie::wf_contents);
            assert forall|k: Seq<u8>| #[trigger] t.contents@.contains_key(k) implies k.len() > 0
                && t.index@.contains_key(k) by {
                old_t.lemma_key(k);
            }
        }
        assert(t.wf_owner()) by {
            reveal(Trie::wf_owner);
            assert forall|d: usize| #[trigger] t.owner@.contains_key(d) implies t.paths@.contains_key(
                t.owner@[d],
            ) && t.nodes@[t.owner@[d] as int].data_idx == Some(d) by {
                reveal(Trie::wf_owner);
                let o = old_t.owner@[d];
                assert(old_t.paths@.contains_key(o));
                old_t.lemma_node(o);
                if ks.len() > 0 {
                    old_t.lemma_kid_parent(parent, ks.len() - 1);
                }
            }
        }
        assert(t.wf_free()) by {
            reveal(Trie::wf_free);
            assert forall|m: int| 0 <= m < t.nodes_free_list@.len() implies {
                let f = #[trigger] t.nodes_free_list@[m];
                0 < f < t.nodes@.len() && !t.paths@.contains_key(f)
            } by {
                assert(t.nodes_free_list@[m] == old_t.nodes_free_list@[m]);
            }
        }
    }

    proof fn lemma_link_pruned(old_t: Self, t: Self, parent: usize, ch: u8, n: usize)
        requires
            Self::linked(old_t, t, parent, ch, n),
            old_t.pruned_except(parent),
        ensures
            t.pruned_except(n),
    {
        reveal(Trie::pruned_except);
        let ks = old_t.kids@[parent];
        old_t.lemma_node(parent);
        if ks.len() > 0 {
            old_t.lemma_kid_parent(parent, ks.len() - 1);
        }
        assert forall|i: usize| #[trigger] t.paths@.contains_key(i) && i != 0 && i != n implies t.nodes@[i as int].data_idx is Some || t.kids@[i].len() > 0 by {
            if i != parent {
                old_t.lemma_node(i);
                assert(old_t.paths@.contains_key(i));
            } else {
                assert(t.kids@[i] == ks.push(n));
            }
        }
    }

    /// Returns the child of `parent` along byte `ch`, creating it (from the
    /// node free list where possible) when it is missing.
    fn child_or_insert(&mut self, parent: usize, ch: u8) -> (r: usize)
        requires
            old(self).wf_core(),
            old(self).paths@.contains_key(parent),
            old(self).paths@[parent].len() < old(self).height@,
            old(self).pruned_except(parent),
        ensures
            final(self).wf_core(),
            final(self).pruned_except(r),
            final(self).values@ == old(self).values@,
            final(self).values_free_list@ == old(self).values_free_list@,
            r != 0,
            final(self).index@ == old(self).index@.insert(old(self).paths@[parent].push(ch), r),
            final(self).contents@ == old(self).contents@,
            final(self).height@ == old(self).height@,
            old(self).index@.contains_key(old(self).paths@[parent].push(ch)) ==> {
                &&& final(self).nodes@.len() == old(self).nodes@.len()
                &&& final(self).nodes_free_list@.len() == old(self).nodes_free_list@.len()
            },
            !old(self).index@.contains_key(old(self).paths@[parent].push(ch)) ==> {
                &&& old(self).nodes_free_list@.len() > 0 ==> final(self).nodes@.len()
                    == old(self).nodes@.len() && final(self).nodes_free_list@.len()
                    == old(self).nodes_free_list@.len() - 1
                &&& old(self).nodes_free_list@.len() == 0 ==> final(self).nodes@.len()
                    == old(self).nodes@.len() + 1 && final(self).nodes_free_list@.len() == 0
            },
    {
        let (found, _, _) = self.find_child(parent, ch);
        if found != 0 {
            proof {
                self.lemma_pruned_shift(parent, found);
            }
            assert(self.index@.insert(self.paths@[parent].push(ch), found) =~= self.index@);
            return found;
        }
        let ghost old_self = *self;
        let ghost q = self.paths@[parent].push(ch);
        let ghost ks = self.kids@[parent];
        proof {
            old_self.lemma_node(parent);
            if ks.len() > 0 {
                old_self.lemma_kid_parent(parent, ks.len() - 1);
            }
            reveal(Trie::wf_free);
        }
        let first = self.nodes[parent].child_first_idx;
        let last = self.nodes[parent].child_last_idx;
        let node = TrieNode {
            key: ch,
            next_idx: 0,
            child_first_idx: 0,
            child_last_idx: 0,
            data_idx: None,
        };
        let node_idx: usize;
        match self.nodes_free_list.pop() {
            Some(f) => {
                assert(old_self.nodes_free_list@[old_self.nodes_free_list@.len() - 1] == f);
                proof {
                    reveal(Trie::wf_free);
                    assert(!old_self.paths@.contains_key(f));
                }
                node_idx = f;
                self.nodes.set(f, node);
            },
            None => {
                node_idx = self.nodes.len();
                self.nodes.push(node);
            },
        }
        proof {
            if old_self.paths@.contains_key(node_idx) {
                old_self.lemma_node(node_idx);
            }
        }
        if first > 0 {
            assert(old_self.paths@.contains_key(last));
            let mut ln = self.nodes[last];
            ln.next_idx = node_idx;
            self.nodes.set(last, ln);
        } else {
            let mut pn = self.nodes[parent];
            pn.child_first_idx = node_idx;
            self.nodes.set(parent, pn);
        }
        let mut pn = self.nodes[parent];
        pn.child_last_idx = node_idx;
        self.nodes.set(parent, pn);
        self.index = Ghost(self.index@.insert(q, node_idx));
        self.paths = Ghost(self.paths@.insert(node_idx, q));
        self.kids = Ghost(self.kids@.insert(node_idx, Seq::empty()).insert(parent, ks.push(node_idx)));
        proof {
            assert(Self::linked(old_self, *self, parent, ch, node_idx));
            Self::lemma_link(old_self, *self, parent, ch, node_idx);
            Self::lemma_link_pruned(old_self, *self, parent, ch, node_idx);
        }
        node_idx
    }


    /// `t` is `old_t` with value `v` stored in slot `d` for the live node `i`.
    spec fn data_set(old_t: Self, t: Self, i: usize, d: usize, v: V) -> bool {
        &&& old_t.wf_core()
        &&& old_t.paths@.contains_key(i)
        &&& old_t.paths@[i].len() > 0
        &&& {
            ||| (old_t.nodes@[i as int].data_idx == Some(d) && t.values_free_list@
                == old_t.values_free_list@ && t.values@.len() == old_t.values@.len())
            ||| (old_t.nodes@[i as int].data_idx is None && old_t.values_free_list@.len() > 0
                && t.values_free_list@ == old_t.values_free_list@.drop_last() && d
                == old_t.values_free_list@.last() && t.values@.len() == old_t.values@.len())
            ||| (old_t.nodes@[i as int].data_idx is None && t.values_free_list@
                == old_t.values_free_list@ && d == old_t.values@.len() && t.values@.len()
                == old_t.values@.len() + 1)
        }
        &&& forall|j: int|
            0 <= j < old_t.values@.len() && j != d ==> t.values@[j] == old_t.values@[j]
        &&& t.values@[d as int] == Some(v)
        &&& t.nodes@ == old_t.nodes@.update(
            i as int,
            TrieNode { data_idx: Some(d), ..old_t.nodes@[i as int] },
        )
        &&& t.nodes_free_list@ == old_t.nodes_free_list@
        &&& t.index@ == old_t.index@
        &&& t.paths@ == old_t.paths@
        &&& t.kids@ == old_t.kids@
        &&& t.height@ == old_t.height@
        &&& t.contents@ == old_t.contents@.insert(old_t.paths@[i], v)
        &&& t.owner@ == old_t.owner@.insert(d, i)
    }

    proof fn lemma_data_set(old_t: Self, t: Self, i: usize, d: usize, v: V)
        requires
            Self::data_set(old_t, t, i, d, v),
        ensures
            t.wf_core(),
    {
        old_t.lemma_node(i);
        if old_t.nodes@[i as int].data_idx is None && old_t.owner@.contains_key(d) {
            reveal(Trie::wf_owner);
            reveal(Trie::wf_free);
            old_t.lemma_node(old_t.owner@[d]);
            assert(old_t.values_free_list@[old_t.values_free_list@.len() - 1] == d);
        }
        assert(old_t.nodes@[i as int].data_idx is None ==> !old_t.owner@.contains_key(d));
        assert(d < t.values@.len()) by {
            reveal(Trie::wf_free);
            if old_t.nodes@[i as int].data_idx == Some(d) {
                assert(old_t.data_wf(i));
            } else if t.values@.len() == old_t.values@.len() {
                assert(old_t.values_free_list@[old_t.values_free_list@.len() - 1] == d);
            }
        }
        assert(t.wf_index()) by {
            reveal(Trie::wf_index);
        }
        assert(t.wf_nodes()) by {
            reveal(Trie::wf_nodes);
            assert forall|j: usize| #[trigger] t.paths@.contains_key(j) implies {
                &&& t.index@.contains_key(t.paths@[j])
                &&& t.index@[t.paths@[j]] == j
                &&& t.kids@.contains_key(j)
                &&& j < t.nodes@.len()
                &&& t.list_wf(j)
                &&& t.data_wf(j)
            } by {
                old_t.lemma_node(j);
                assert(t.list_wf(j));
                if j != i {
                    assert(t.paths@[j] != t.paths@[i]);
                    if let Some(dj) = old_t.nodes@[j as int].data_idx {
                        reveal(Trie::wf_owner);
                        assert(dj != d);
                    }
                    assert(t.data_wf(j));
                }
            }
        }
        assert(t.wf_up()) by {
            reveal(Trie::wf_up);
        }
        assert(t.wf_contents()) by {
            reveal(Trie::wf_contents);
        }
        assert(t.wf_owner()) by {
            reveal(Trie::wf_owner);
            assert forall|e: usize| #[trigger] t.owner@.contains_key(e) implies t.paths@.contains_key(
                t.owner@[e],
            ) && t.nodes@[t.owner@[e] as int].data_idx == Some(e) by {
                if e != d {
                    let o = old_t.owner@[e];
                    old_t.lemma_node(o);
                }
            }
        }
        assert(t.wf_free()) by {
            reveal(Trie::wf_free);
            assert forall|m: int| 0 <= m < t.values_free_list@.len() implies {
                let f = #[trigger] t.values_free_list@[m];
                f < t.values@.len() && !t.owner@.contains_key(f)
            } by {
                assert(t.values_free_list@[m] == old_t.values_free_list@[m]);
                if old_t.nodes@[i as int].data_idx == Some(d) {
                    assert(old_t.owner@.contains_key(d));
                }
            }
        }
    }

    /// Raising the height bound keeps the invariant.
    proof fn lemma_raise_height(old_t: Self, t: Self)
        requires
            old_t.wf_core(),
            t == (Trie { height: t.height, ..old_t }),
            t.height@ >= old_t.height@,
        ensures
            t.wf_core(),
    {
        assert(t.wf_index()) by {
            reveal(Trie::wf_index);
        }
        assert(t.wf_nodes()) by {
            reveal(Trie::wf_nodes);
            assert forall|i: usize| #[trigger] t.paths@.contains_key(i) implies t.list_wf(i)
                && t.data_wf(i) by {
                old_t.lemma_node(i);
            }
        }
        assert(t.wf_up()) by {
            reveal(Trie::wf_up);
        }
        assert(t.wf_contents()) by {
            reveal(Trie::wf_contents);
        }
        assert(t.wf_owner()) by {
            reveal(Trie::wf_owner);
        }
        assert(t.wf_free()) by {
            reveal(Trie::wf_free);
        }
    }

    /// Walks down `key`, creating the missing nodes, and returns the node of
    /// the whole key.
    fn descend_or_create(&mut self, key: &[u8]) -> (r: usize)
        requires
            old(self).wf_core(),
            key@.len() <= old(self).height@,
            old(self).pruned_except(0),
        ensures
            final(self).wf_core(),
            final(self).pruned_except(r),
            final(self).values@ == old(self).values@,
            final(self).values_free_list@ == old(self).values_free_list@,
            final(self).index@.contains_key(key@),
            final(self).index@[key@] == r,
            final(self).contents@ == old(self).contents@,
            final(self).height@ == old(self).height@,
            final(self).nodes@.len() <= old(self).nodes@.len() + key@.len(),
            old(self).nodes_free_list@.len() >= key@.len() ==> final(self).nodes@.len() == old(self).nodes@.len(),
            final(self).index@.dom().len() >= old(self).index@.dom().len(),
            ({
                let created = final(self).index@.dom().len() - old(self).index@.dom().len();
                let free = old(self).nodes_free_list@.len();
                final(self).nodes_free_list@.len() == (if created > free {
                    0
                } else {
                    free - created
                })
            }),
    {
        let ghost start = *self;
        let mut cur: usize = 0;
        let mut depth: usize = 0;
        assert(key@.subrange(0, 0) =~= Seq::<u8>::empty());
        while depth < key.len()
            invariant
                self.wf_core(),
                self.pruned_except(cur),
                self.values@ == start.values@,
                self.values_free_list@ == start.values_free_list@,
                depth <= key@.len(),
                key@.len() <= self.height@,
                self.height@ == start.height@,
                self.index@.contains_key(key@.subrange(0, depth as int)),
                cur == self.index@[key@.subrange(0, depth as int)],
                self.contents@ == start.contents@,
                self.nodes@.len() <= start.nodes@.len() + depth,
                start.nodes_free_list@.len() >= key@.len() ==> {
                    &&& self.nodes@.len() == start.nodes@.len()
                    &&& self.nodes_free_list@.len() + depth >= start.nodes_free_list@.len()
                },
                self.index@.dom().len() >= start.index@.dom().len(),
                ({
                    let created = self.index@.dom().len() - start.index@.dom().len();
                    let free = start.nodes_free_list@.len();
                    self.nodes_free_list@.len() == (if created > free {
                        0
                    } else {
                        free - created
                    })
                }),
            decreases key@.len() - depth,
        {
            let ghost p = key@.subrange(0, depth as int);
            proof {
                self.lemma_path(p);
            }
            let ghost prev = *self;
            cur = self.child_or_insert(cur, key[depth]);
            proof {
                let q = p.push(key@[depth as int]);
                if prev.index@.contains_key(q) {
                    assert(self.index@.dom() =~= prev.index@.dom());
                } else {
                    assert(self.index@.dom() =~= prev.index@.dom().insert(q));
                }
            }
            assert(p.push(key@[depth as int]) =~= key@.subrange(0, depth + 1));
            depth = depth + 1;
        }
        assert(key@.subrange(0, depth as int) =~= key@);
        cur
    }

    /// Stores `value` at the live node `cur` of path `key`.
    fn set_value(&mut self, cur: usize, key: Ghost<Seq<u8>>, value: V) -> (r: Option<V>)
        requires
            old(self).wf_core(),
            key@.len() > 0,
            old(self).index@.contains_key(key@),
            old(self).index@[key@] == cur,
            old(self).pruned_except(cur),
        ensures
            final(self).wf(),
            final(self)@ == old(self)@.insert(key@, value),
            r == (if old(self)@.contains_key(key@) {
                Some(old(self)@[key@])
            } else {
                None::<V>
            }),
            final(self).nodes@.len() == old(self).nodes@.len(),
            final(self).index@ == old(self).index@,
            final(self).nodes_free_list@ == old(self).nodes_free_list@,
            old(self)@.contains_key(key@) ==> final(self).values@.len() == old(self).values@.len()
                && final(self).values_free_list@ == old(self).values_free_list@,
            !old(self)@.contains_key(key@) && old(self).values_free_list@.len() > 0 ==> final(self).values@.len() == old(self).values@.len() && final(self).values_free_list@.len()
                == old(self).values_free_list@.len() - 1,
            !old(self)@.contains_key(key@) && old(self).values_free_list@.len() == 0 ==> final(self).values@.len() == old(self).values@.len() + 1 && final(self).values_free_list@.len()
                == 0,
    {
        let ghost before = *self;
        proof {
            self.lemma_path(key@);
            self.lemma_node(cur);
        }
        match self.nodes[cur].data_idx {
            Some(d) => {
                self.values.push(Some(value));
                let prev = self.values.swap_remove(d);
                self.contents = Ghost(self.contents@.insert(key@, value));
                self.owner = Ghost(self.owner@.insert(d, cur));
                proof {
                    assert(self.nodes@ =~= before.nodes@.update(
                        cur as int,
                        TrieNode { data_idx: Some(d), ..before.nodes@[cur as int] },
                    ));
                    assert(Self::data_set(before, *self, cur, d, value));
                    Self::lemma_data_set(before, *self, cur, d, value);
                    assert(self.pruned_except(0)) by {
                        reveal(Trie::pruned_except);
                        assert forall|i: usize|
                            #[trigger] self.paths@.contains_key(i) && i != 0 implies self.nodes@[i as int].data_idx
                                is Some || self.kids@[i].len() > 0 by {
                            if i != cur {
                                before.lemma_node(i);
                                assert(self.nodes@[i as int] == before.nodes@[i as int]);
                            }
                        }
                    }
                }
                prev
            },
            None => {
                let d: usize;
                match self.values_free_list.pop() {
                    Some(f) => {
                        assert(before.values_free_list@[before.values_free_list@.len() - 1] == f);
                        proof {
                            reveal(Trie::wf_free);
                        }
                        d = f;
                        self.values.set(f, Some(value));
                    },
                    None => {
                        d = self.values.len();
                        self.values.push(Some(value));
                    },
                }
                let mut node = self.nodes[cur];
                node.data_idx = Some(d);
                self.nodes.set(cur, node);
                self.contents = Ghost(self.contents@.insert(key@, value));
                self.owner = Ghost(self.owner@.insert(d, cur));
                proof {
                    assert(Self::data_set(before, *self, cur, d, value));
                    Self::lemma_data_set(before, *self, cur, d, value);
                    assert(self.pruned_except(0)) by {
                        reveal(Trie::pruned_except);
                        assert forall|i: usize|
                            #[trigger] self.paths@.contains_key(i) && i != 0 implies self.nodes@[i as int].data_idx
                                is Some || self.kids@[i].len() > 0 by {
                            if i != cur {
                                before.lemma_node(i);
                                assert(self.nodes@[i as int] == before.nodes@[i as int]);
                            }
                        }
                    }
                }
                None
            },
        }
    }

    /// Stores `value` under `key`, returning the value it replaces, if any.
    /// The key is not empty: the root never holds a value.
    pub fn insert(&mut self, key: &[u8], value: V) -> (r: Option<V>)
        requires
            old(self).wf(),
            key@.len() > 0,
        ensures
            final(self).wf(),
            final(self)@ == old(self)@.insert(key@, value),
            r == (if old(self)@.contains_key(key@) {
                Some(old(self)@[key@])
            } else {
                None::<V>
            }),
            final(self).arena_len() <= old(self).arena_len() + key@.len(),
            old(self).free_node_count() >= key@.len() ==> final(self).arena_len() == old(self).arena_len(),
            old(self)@.contains_key(key@) ==> final(self).value_arena_len() == old(self).value_arena_len() && final(self).free_value_count() == old(self).free_value_count(),
            !old(self)@.contains_key(key@) && old(self).free_value_count() > 0 ==> final(self).value_arena_len() == old(self).value_arena_len() && final(self).free_value_count()
                == old(self).free_value_count() - 1,
            !old(self)@.contains_key(key@) && old(self).free_value_count() == 0 ==> final(self).value_arena_len() == old(self).value_arena_len() + 1 && final(self).free_value_count()
                == 0,
            final(self).live_node_count() >= old(self).live_node_count(),
            ({
                let created = final(self).live_node_count() - old(self).live_node_count();
                let free = old(self).free_node_count();
                &&& final(self).free_node_count() == (if created > free {
                    0
                } else {
                    free - created
                })
                &&& final(self).arena_len() == old(self).arena_len() + (if created > free {
                    created - free
                } else {
                    0
                })
            }),
    {
        let ghost before = *self;
        let ghost h0 = self.height@;
        self.height = Ghost(if h0 < key@.len() { key@.len() } else { h0 });
        proof {
            Self::lemma_raise_height(before, *self);
            assert(self.pruned_except(0)) by {
                reveal(Trie::pruned_except);
            }
        }
        let cur = self.descend_or_create(key);
        self.set_value(cur, Ghost(key@), value)
    }


    /// Appends to `out` every stored key that strictly extends the path of
    /// `parent`, depth first; `buf` holds that path in its first `depth` bytes.
    fn collect(&self, depth: usize, parent: usize, buf: &mut Vec<u8>, out: &mut Vec<Vec<u8>>)
        requires
            self.wf_core(),
            self.paths@.contains_key(parent),
            self.paths@[parent].len() == depth,
            old(buf)@.len() >= depth,
            old(buf)@.subrange(0, depth as int) == self.paths@[parent],
            distinct_keys(old(out)@),
            prefixes_first(old(out)@),
            forall|i: int|
                0 <= i < old(out)@.len() ==> !strictly_extends(
                    (#[trigger] old(out)@[i])@,
                    self.paths@[parent],
                ),
        ensures
            final(buf)@.len() >= depth,
            final(buf)@.subrange(0, depth as int) == old(buf)@.subrange(0, depth as int),
            forall|k: Seq<u8>|
                #[trigger] listed(final(out)@, k) == (listed(old(out)@, k) || (self@.contains_key(k) && k.len()
                    > depth && extends(k, self.paths@[parent]))),
            final(out)@.len() >= old(out)@.len(),
            final(out)@.subrange(0, old(out)@.len() as int) == old(out)@,
            forall|i: int|
                old(out)@.len() <= i < final(out)@.len() ==> self@.contains_key(
                    (#[trigger] final(out)@[i])@,
                ) && strictly_extends(final(out)@[i]@, self.paths@[parent]),
            distinct_keys(final(out)@),
            prefixes_first(final(out)@),
        decreases self.height@ - depth,
    {
        let ghost ks = self.kids@[parent];
        let ghost out0 = out@;
        let ghost pp = self.paths@[parent];
        proof {
            self.lemma_node(parent);
            self.lemma_path(pp);
        }
        let mut node_idx = self.nodes[parent].child_first_idx;
        let ghost mut j: int = 0;
        while node_idx > 0
            invariant
                self.wf_core(),
                self.paths@.contains_key(parent),
                self.list_wf(parent),
                pp == self.paths@[parent],
                pp.len() == depth,
                depth <= self.height@,
                ks == self.kids@[parent],
                0 <= j <= ks.len(),
                node_idx == (if j < ks.len() { ks[j] } else { 0usize }),
                buf@.len() >= depth,
                buf@.subrange(0, depth as int) == pp,
                forall|k: Seq<u8>|
                    #[trigger] listed(out@, k) == (listed(out0, k) || (self@.contains_key(k) && covered(
                        self.paths@,
                        ks,
                        j,
                        k,
                    ))),
                out@.len() >= out0.len(),
                out@.subrange(0, out0.len() as int) == out0,
                forall|i: int|
                    out0.len() <= i < out@.len() ==> self@.contains_key((#[trigger] out@[i])@)
                        && covered(self.paths@, ks, j, out@[i]@),
                distinct_keys(out@),
                prefixes_first(out@),
                forall|i: int|
                    0 <= i < out0.len() ==> !strictly_extends((#[trigger] out0[i])@, pp),
            decreases ks.len() - j,
        {
            assert(ks[j] == node_idx);
            let ghost c = node_idx;
            proof {
                self.lemma_kid_parent(parent, j);
                self.lemma_node(c);
                self.lemma_path(self.paths@[c]);
            }
            let ghost pc = self.paths@[c];
            let key = self.nodes[node_idx].key;
            if depth >= buf.len() {
                buf.push(key);
            } else {
                buf.set(depth, key);
            }
            assert(buf@.subrange(0, depth + 1) =~= pc);
            let ghost out1 = out@;
            proof {
                assert(self.data_wf(c));
                assert(pc.subrange(0, depth as int) =~= pp);
                assert forall|i: int| 0 <= i < out1.len() implies (#[trigger] out1[i])@ != pc
                    && !strictly_extends(out1[i]@, pc) by {
                    let y = out1[i]@;
                    if i < out0.len() {
                        assert(out1[i] == out0[i]);
                        if extends(y, pc) {
                            lemma_extends_trans(y, pc, pp);
                        }
                    } else {
                        let m = choose|m: int| 0 <= m < j && extends(y, self.paths@[#[trigger] ks[m]]);
                        if extends(y, pc) {
                            self.lemma_kid_parent(parent, m);
                            self.lemma_node(ks[m]);
                            assert(self.paths@[ks[m]] =~= y.subrange(0, depth + 1));
                            assert(pc =~= y.subrange(0, depth + 1));
                            assert(ks[m] == ks[j]);
                        }
                        if y == pc {
                            assert(pc.subrange(0, pc.len() as int) =~= pc);
                            assert(extends(y, pc));
                        }
                    }
                }
            }
            if self.nodes[node_idx].data_idx.is_some() {
                assert(depth < buf.len());
                let k = copy_prefix(buf.as_slice(), depth + 1);
                out.push(k);
                proof {
                    assert forall|k2: Seq<u8>| listed(out@, k2) == (listed(out1, k2) || k2 == pc) by {
                        lemma_listed_push(out1, k, k2);
                    }
                    lemma_push_keeps_order(out1, k);
                }
            }
            let ghost out2 = out@;
            assert(pc.subrange(0, pc.len() as int) =~= pc);
            assert(forall|k2: Seq<u8>|
                #[trigger] listed(out2, k2) == (listed(out1, k2) || (self@.contains_key(pc) && k2 == pc)));
            assert(depth < buf.len());
            assert(forall|i: int|
                0 <= i < out2.len() ==> !strictly_extends((#[trigger] out2[i])@, pc)) by {
                assert forall|i: int| 0 <= i < out2.len() implies !strictly_extends(
                    (#[trigger] out2[i])@,
                    pc,
                ) by {
                    if i < out1.len() {
                        assert(out2[i] == out1[i]);
                    }
                }
            }
            self.collect(depth + 1, node_idx, buf, out);
            assert(buf@.subrange(0, depth as int) =~= buf@.subrange(0, depth + 1).subrange(
                0,
                depth as int,
            ));
            assert(pc.subrange(0, depth as int) =~= pp);
            proof {
                assert(self.data_wf(c));
                assert forall|k: Seq<u8>|
                    #[trigger] listed(out@, k) == (listed(out0, k) || (self@.contains_key(k) && covered(
                        self.paths@,
                        ks,
                        j + 1,
                        k,
                    ))) by {
                    if self@.contains_key(k) && covered(self.paths@, ks, j + 1, k) {
                        if !covered(self.paths@, ks, j, k) {
                            let m = choose|m: int|
                                0 <= m < j + 1 && extends(k, self.paths@[#[trigger] ks[m]]);
                            assert(m == j);
                            assert(extends(k, pc));
                            if k.len() == depth + 1 {
                                assert(k =~= k.subrange(0, depth + 1));
                                assert(listed(out2, k));
                            }
                        }
                    }
                    if listed(out@, k) && !listed(out0, k) {
                        if listed(out2, k) {
                            if !listed(out1, k) {
                                assert(k == pc);
                                assert(extends(k, self.paths@[ks[j]]));
                            } else {
                                let m = choose|m: int|
                                    0 <= m < j && extends(k, self.paths@[#[trigger] ks[m]]);
                                assert(extends(k, self.paths@[ks[m]]));
                            }
                        } else {
                            assert(extends(k, self.paths@[ks[j]]));
                        }
                        assert(covered(self.paths@, ks, j + 1, k));
                    }
                    if covered(self.paths@, ks, j, k) {
                        let m = choose|m: int| 0 <= m < j && extends(k, self.paths@[#[trigger] ks[m]]);
                        assert(extends(k, self.paths@[ks[m]]));
                    }
                }
            }
            proof {
                assert(out@.subrange(0, out0.len() as int) =~= out@.subrange(
                    0,
                    out2.len() as int,
                ).subrange(0, out1.len() as int).subrange(0, out0.len() as int));
                assert forall|i: int| out0.len() <= i < out@.len() implies self@.contains_key(
                    (#[trigger] out@[i])@,
                ) && covered(self.paths@, ks, j + 1, out@[i]@) by {
                    let y = out@[i]@;
                    if i < out2.len() {
                        assert(out@[i] == out@.subrange(0, out2.len() as int)[i]);
                        if i < out1.len() {
                            assert(out2[i] == out1[i]);
                            let m = choose|m: int|
                                0 <= m < j && extends(y, self.paths@[#[trigger] ks[m]]);
                            assert(extends(y, self.paths@[ks[m]]));
                        } else {
                            assert(y == pc);
                            assert(extends(y, self.paths@[ks[j]]));
                        }
                    } else {
                        assert(extends(y, self.paths@[ks[j]]));
                    }
                }
            }
            node_idx = self.nodes[node_idx].next_idx;
            proof {
                j = j + 1;
            }
        }
        proof {
            assert forall|k: Seq<u8>|
                (self@.contains_key(k) && covered(self.paths@, ks, j, k)) == (self@.contains_key(k)
                    && k.len() > depth && extends(k, pp)) by {
                if self@.contains_key(k) && covered(self.paths@, ks, j, k) {
                    let m = choose|m: int| 0 <= m < j && extends(k, self.paths@[#[trigger] ks[m]]);
                    self.lemma_kid_parent(parent, m);
                    let pc = self.paths@[ks[m]];
                    assert(k.subrange(0, depth as int) =~= pc.subrange(0, depth as int));
                    assert(pc.subrange(0, depth as int) =~= pc.drop_last());
                }
                if self@.contains_key(k) && k.len() > depth && extends(k, pp) {
                    self.lemma_key(k);
                    self.lemma_prefix_live(k, depth + 1);
                    let q = k.subrange(0, depth + 1);
                    assert(q.drop_last() =~= pp);
                    self.lemma_up(q);
                    self.lemma_path(q);
                    let m = choose|m: int| 0 <= m < ks.len() && ks[m] == self.index@[q];
                    assert(extends(k, self.paths@[ks[m]]));
                }
            }
            assert forall|i: int| out0.len() <= i < out@.len() implies self@.contains_key(
                (#[trigger] out@[i])@,
            ) && strictly_extends(out@[i]@, pp) by {
                let y = out@[i]@;
                let m = choose|m: int| 0 <= m < j && extends(y, self.paths@[#[trigger] ks[m]]);
                self.lemma_kid_parent(parent, m);
                let pc = self.paths@[ks[m]];
                assert(pc.subrange(0, depth as int) =~= pc.drop_last());
                lemma_extends_trans(y, pc, pp);
            }
        }
    }

    /// Every stored key, each once, depth first: a key comes before the keys
    /// that extend it.
    pub fn keys(&self) -> (r: Vec<Vec<u8>>)
        requires
            self.wf(),
        ensures
            forall|k: Seq<u8>| listed(r@, k) == self@.contains_key(k),
            distinct_keys(r@),
            prefixes_first(r@),
    {
        let mut result: Vec<Vec<u8>> = Vec::new();
        let mut buf: Vec<u8> = Vec::new();
        proof {
            self.lemma_path(Seq::empty());
        }
        assert(buf@.subrange(0, 0) =~= Seq::<u8>::empty());
        self.collect(0, 0, &mut buf, &mut result);
        proof {
            assert forall|k: Seq<u8>| listed(result@, k) == self@.contains_key(k) by {
                if self@.contains_key(k) {
                    self.lemma_key(k);
                    assert(k.subrange(0, 0) =~= Seq::<u8>::empty());
                }
            }
        }
        result
    }

    /// Every stored key that starts with `prefix`, each once, depth first. A
    /// stored prefix comes first, before the keys under it. A prefix that leads
    /// to no node gives an empty listing.
    pub fn keys_by_prefix(&self, prefix: &[u8]) -> (r: Vec<Vec<u8>>)
        requires
            self.wf(),
        ensures
            forall|k: Seq<u8>| listed(r@, k) == (self@.contains_key(k) && extends(k, prefix@)),
            distinct_keys(r@),
            prefixes_first(r@),
            self@.contains_key(prefix@) ==> r@.len() > 0 && r@[0]@ == prefix@,
    {
        let mut result: Vec<Vec<u8>> = Vec::new();
        assert(prefix@.subrange(0, prefix@.len() as int) =~= prefix@);
        match self.find_node(prefix, prefix.len()) {
            Some(root) => {
                proof {
                    self.lemma_path(prefix@);
                    self.lemma_node(root);
                }
                let ghost r0 = result@;
                if self.nodes[root].data_idx.is_some() {
                    let k = copy_prefix(prefix, prefix.len());
                    assert(k@ =~= prefix@);
                    result.push(k);
                    proof {
                        assert forall|k2: Seq<u8>| listed(result@, k2) == (listed(r0, k2) || k2
                            == prefix@) by {
                            lemma_listed_push(r0, k, k2);
                        }
                        lemma_push_keeps_order(r0, k);
                        assert(result@[0]@ == prefix@);
                    }
                }
                let ghost r1 = result@;
                assert(forall|k2: Seq<u8>|
                    listed(r1, k2) == (listed(r0, k2) || (self@.contains_key(prefix@) && k2
                        == prefix@)));
                let mut buf = copy_prefix(prefix, prefix.len());
                assert(buf@.subrange(0, prefix@.len() as int) =~= prefix@);
                assert(self.paths@[root] == prefix@);
                self.collect(prefix.len(), root, &mut buf, &mut result);
                proof {
                    if self@.contains_key(prefix@) {
                        assert(self.data_wf(root));
                        assert(r1.len() > 0 && r1[0]@ == prefix@);
                        assert(result@[0] == result@.subrange(0, r1.len() as int)[0]);
                    }
                }
                proof {
                    assert forall|k: Seq<u8>|
                        listed(result@, k) == (self@.contains_key(k) && extends(k, prefix@)) by {
                        if extends(k, prefix@) && k.len() == prefix@.len() {
                            assert(k =~= k.subrange(0, prefix@.len() as int));
                        }
                        if k == prefix@ {
                            assert(prefix@.subrange(0, prefix@.len() as int) =~= prefix@);
                        }
                    }
                }
            },
            None => {
                proof {
                    if self@.contains_key(prefix@) {
                        self.lemma_key(prefix@);
                    }
                    assert forall|k: Seq<u8>|
                        listed(result@, k) == (self@.contains_key(k) && extends(k, prefix@)) by {
                        if self@.contains_key(k) && extends(k, prefix@) {
                            self.lemma_key(k);
                            self.lemma_prefix_live(k, prefix@.len() as int);
                        }
                    }
                }
            },
        }
        result
    }


    /// `t` is `old_t` with the value of the live node `i` (in slot `d`) taken out.
    spec fn data_cleared(old_t: Self, t: Self, i: usize, d: usize) -> bool {
        &&& old_t.wf_core()
        &&& old_t.paths@.contains_key(i)
        &&& old_t.nodes@[i as int].data_idx == Some(d)
        &&& t.nodes@ == old_t.nodes@.update(i as int, TrieNode { data_idx: None, ..old_t.nodes@[i as int] })
        &&& t.values@.len() == old_t.values@.len()
        &&& forall|j: int| 0 <= j < old_t.values@.len() && j != d ==> t.values@[j] == old_t.values@[j]
        &&& t.values_free_list@ == old_t.values_free_list@.push(d)
        &&& t.nodes_free_list@ == old_t.nodes_free_list@
        &&& t.index@ == old_t.index@
        &&& t.paths@ == old_t.paths@
        &&& t.kids@ == old_t.kids@
        &&& t.height@ == old_t.height@
        &&& t.contents@ == old_t.contents@.remove(old_t.paths@[i])
        &&& t.owner@ == old_t.owner@.remove(d)
    }

    proof fn lemma_data_cleared(old_t: Self, t: Self, i: usize, d: usize)
        requires
            Self::data_cleared(old_t, t, i, d),
        ensures
            t.wf_core(),
    {
        old_t.lemma_node(i);
        assert(t.wf_index()) by {
            reveal(Trie::wf_index);
        }
        assert(t.wf_nodes()) by {
            reveal(Trie::wf_nodes);
            assert forall|j: usize| #[trigger] t.paths@.contains_key(j) implies {
                &&& t.index@.contains_key(t.paths@[j])
                &&& t.index@[t.paths@[j]] == j
                &&& t.kids@.contains_key(j)
                &&& j < t.nodes@.len()
                &&& t.list_wf(j)
                &&& t.data_wf(j)
            } by {
                old_t.lemma_node(j);
                assert(t.list_wf(j));
                if j != i {
                    assert(t.paths@[j] != t.paths@[i]);
                    if let Some(dj) = old_t.nodes@[j as int].data_idx {
                        assert(dj != d);
                    }
                    assert(t.data_wf(j));
                }
            }
        }
        assert(t.wf_up()) by {
            reveal(Trie::wf_up);
        }
        assert(t.wf_contents()) by {
            reveal(Trie::wf_contents);
        }
        assert(t.wf_owner()) by {
            reveal(Trie::wf_owner);
            assert forall|e: usize| #[trigger] t.owner@.contains_key(e) implies t.paths@.contains_key(
                t.owner@[e],
            ) && t.nodes@[t.owner@[e] as int].data_idx == Some(e) by {
                let o = old_t.owner@[e];
                old_t.lemma_node(o);
            }
        }
        assert(t.wf_free()) by {
            reveal(Trie::wf_free);
            assert(old_t.owner@.contains_key(d));
            assert forall|m: int| 0 <= m < t.values_free_list@.len() implies {
                let f = #[trigger] t.values_free_list@[m];
                f < t.values@.len() && !t.owner@.contains_key(f)
            } by {
                if m < old_t.values_free_list@.len() {
                    assert(t.values_free_list@[m] == old_t.values_free_list@[m]);
                }
            }
            assert forall|a: int, b: int|
                0 <= a < t.values_free_list@.len() && 0 <= b < t.values_free_list@.len() && a
                    != b implies t.values_free_list@[a] != t.values_free_list@[b] by {
                if a < old_t.values_free_list@.len() {
                    assert(t.values_free_list@[a] == old_t.values_free_list@[a]);
                }
                if b < old_t.values_free_list@.len() {
                    assert(t.values_free_list@[b] == old_t.values_free_list@[b]);
                }
            }
        }
    }

    /// Takes the value out of the live node `cur` of path `key`, if it holds one.
    fn clear_value(&mut self, cur: usize, key: Ghost<Seq<u8>>) -> (r: Option<V>)
        requires
            old(self).wf_core(),
            old(self).index@.contains_key(key@),
            old(self).index@[key@] == cur,
            old(self).pruned_except(0),
        ensures
            final(self).wf_core(),
            final(self).pruned_except(cur),
            final(self)@ == old(self)@.remove(key@),
            r == (if old(self)@.contains_key(key@) {
                Some(old(self)@[key@])
            } else {
                None::<V>
            }),
            final(self).nodes@.len() == old(self).nodes@.len(),
            final(self).index@ == old(self).index@,
            final(self).paths@ == old(self).paths@,
            final(self).kids@ == old(self).kids@,
            forall|i: int|
                0 <= i < final(self).nodes@.len() ==> {
                    &&& (#[trigger] final(self).nodes@[i]).child_first_idx == old(self).nodes@[i].child_first_idx
                    &&& i != cur ==> final(self).nodes@[i].data_idx == old(self).nodes@[i].data_idx
                },
            final(self).nodes@[cur as int].data_idx is None,
            final(self).nodes_free_list@ == old(self).nodes_free_list@,
            final(self).values@.len() == old(self).values@.len(),
            final(self).values_free_list@.len() == old(self).values_free_list@.len() + (if old(self)@.contains_key(key@) {
                1int
            } else {
                0int
            }),
    {
        let ghost before = *self;
        proof {
            self.lemma_path(key@);
            self.lemma_node(cur);
        }
        match self.nodes[cur].data_idx {
            Some(d) => {
                self.values.push(None);
                let prev = self.values.swap_remove(d);
                let mut node = self.nodes[cur];
                node.data_idx = None;
                self.nodes.set(cur, node);
                self.values_free_list.push(d);
                self.contents = Ghost(self.contents@.remove(key@));
                self.owner = Ghost(self.owner@.remove(d));
                proof {
                    assert(Self::data_cleared(before, *self, cur, d));
                    Self::lemma_data_cleared(before, *self, cur, d);
                    assert(self.pruned_except(cur)) by {
                        reveal(Trie::pruned_except);
                        assert forall|i: usize|
                            #[trigger] self.paths@.contains_key(i) && i != 0 && i != cur implies self.nodes@[i as int].data_idx
                                is Some || self.kids@[i].len() > 0 by {
                            before.lemma_node(i);
                            assert(self.nodes@[i as int] == before.nodes@[i as int]);
                        }
                    }
                }
                prev
            },
            None => {
                assert(self.contents@.remove(key@) =~= self.contents@);
                proof {
                    self.lemma_pruned_shift(0, cur);
                }
                None
            },
        }
    }

    /// `t` is `old_t` with the childless, valueless node `c`, the `j`-th child
    /// of `parent`, unlinked and put on the node free list.
    spec fn unlinked(old_t: Self, t: Self, parent: usize, c: usize, j: int) -> bool {
        let ks = old_t.kids@[parent];
        let prev = if j == 0 { 0usize } else { ks[j - 1] };
        let pn = old_t.nodes@[parent as int];
        &&& old_t.wf_core()
        &&& old_t.paths@.contains_key(parent)
        &&& 0 <= j < ks.len()
        &&& ks[j] == c
        &&& old_t.kids@[c].len() == 0
        &&& old_t.nodes@[c as int].data_idx is None
        &&& t.nodes@.len() == old_t.nodes@.len()
        &&& forall|i: int|
            0 <= i < t.nodes@.len() && i != parent && (j == 0 || i != prev) ==> t.nodes@[i]
                == old_t.nodes@[i]
        &&& t.nodes@[parent as int] == (TrieNode {
            child_first_idx: if j == 0 {
                if ks.len() > 1 {
                    ks[1]
                } else {
                    0usize
                }
            } else {
                pn.child_first_idx
            },
            child_last_idx: if j == ks.len() - 1 {
                prev
            } else {
                pn.child_last_idx
            },
            ..pn
        })
        &&& (j > 0 ==> t.nodes@[prev as int] == (TrieNode {
            next_idx: if j + 1 < ks.len() {
                ks[j + 1]
            } else {
                0usize
            },
            ..old_t.nodes@[prev as int]
        }))
        &&& t.nodes_free_list@ == old_t.nodes_free_list@.push(c)
        &&& t.values@ == old_t.values@
        &&& t.values_free_list@ == old_t.values_free_list@
        &&& t.contents@ == old_t.contents@
        &&& t.owner@ == old_t.owner@
        &&& t.height@ == old_t.height@
        &&& t.index@ == old_t.index@.remove(old_t.paths@[c])
        &&& t.paths@ == old_t.paths@.remove(c)
        &&& t.kids@ == old_t.kids@.remove(c).insert(parent, ks.remove(j))
    }

    #[verifier::spinoff_prover]
    proof fn lemma_unlink_parent(old_t: Self, t: Self, parent: usize, c: usize, j: int, i: usize)
        requires
            Self::unlinked(old_t, t, parent, c, j),
            t.paths@.contains_key(i),
            i == parent,
        ensures
            t.index@.contains_key(t.paths@[i]),
            t.index@[t.paths@[i]] == i,
            t.kids@.contains_key(i),
            i < t.nodes@.len(),
            t.list_wf(i),
            t.data_wf(i),
    {
        let ks = old_t.kids@[parent];
        let prev = if j == 0 { 0usize } else { ks[j - 1] };
        old_t.lemma_node(parent);
        old_t.lemma_node(i);
        old_t.lemma_kid_parent(parent, j);
        old_t.lemma_node(c);
        if j > 0 {
            old_t.lemma_kid_parent(parent, j - 1);
        }
        assert(t.paths@[i] != old_t.paths@[c]);
        let ks2 = ks.remove(j);
        assert forall|m: int| 0 <= m < ks2.len() implies {
            let x = #[trigger] ks2[m];
            &&& x != 0
            &&& x < t.nodes@.len()
            &&& t.paths@.contains_key(x)
            &&& t.paths@[x] == t.paths@[i].push(t.nodes@[x as int].key)
            &&& t.nodes@[x as int].next_idx == (if m + 1 < ks2.len() {
                ks2[m + 1]
            } else {
                0usize
            })
        } by {
            let mo = if m < j { m } else { m + 1 };
            assert(ks2[m] == ks[mo]);
            old_t.lemma_kid_parent(parent, mo);
            assert(ks[mo] != parent);
            assert(ks[mo] != c);
            if m + 1 < ks2.len() {
                let mo1 = if m + 1 < j { m + 1 } else { m + 2 };
                assert(ks2[m + 1] == ks[mo1]);
            }
        }
        assert forall|a: int, b: int|
            0 <= a < ks2.len() && 0 <= b < ks2.len() && a != b implies ks2[a] != ks2[b] by {
            let ao = if a < j { a } else { a + 1 };
            let bo = if b < j { b } else { b + 1 };
            assert(ks2[a] == ks[ao]);
            assert(ks2[b] == ks[bo]);
        }
        if ks2.len() > 0 {
            if j == 0 {
                assert(ks2[0] == ks[1]);
            }
            assert(ks2.last() == ks2[ks2.len() - 1]);
            if j == ks.len() - 1 {
                assert(ks2[ks2.len() - 1] == ks[j - 1]);
            } else {
                assert(ks2[ks2.len() - 1] == ks[ks.len() - 1]);
            }
        }
        assert(t.list_wf(i));
        assert(t.data_wf(i));
    }

    #[verifier::spinoff_prover]
    proof fn lemma_unlink_node(old_t: Self, t: Self, parent: usize, c: usize, j: int, i: usize)
        requires
            Self::unlinked(old_t, t, parent, c, j),
            t.paths@.contains_key(i),
        ensures
            t.index@.contains_key(t.paths@[i]),
            t.index@[t.paths@[i]] == i,
            t.kids@.contains_key(i),
            i < t.nodes@.len(),
            t.list_wf(i),
            t.data_wf(i),
    {
        let ks = old_t.kids@[parent];
        let prev = if j == 0 { 0usize } else { ks[j - 1] };
        old_t.lemma_node(parent);
        old_t.lemma_node(i);
        old_t.lemma_kid_parent(parent, j);
        old_t.lemma_node(c);
        if j > 0 {
            old_t.lemma_kid_parent(parent, j - 1);
        }
        assert(t.paths@[i] != old_t.paths@[c]);
        if i == parent {
            Self::lemma_unlink_parent(old_t, t, parent, c, j, i);
        } else {
            let ki = old_t.kids@[i];
            assert forall|m: int| 0 <= m < ki.len() implies ki[m] != c && (j == 0 || ki[m] != prev) by {
                old_t.lemma_kid_parent(i, m);
            }
            assert(t.list_wf(i));
            assert(t.data_wf(i));
        }
    }

    /// Unlinking a childless, valueless node keeps the invariant.
    proof fn lemma_unlink(old_t: Self, t: Self, parent: usize, c: usize, j: int)
        requires
            Self::unlinked(old_t, t, parent, c, j),
        ensures
            t.wf_core(),
    {
        let ks = old_t.kids@[parent];
        let pc = old_t.paths@[c];
        old_t.lemma_node(parent);
        old_t.lemma_kid_parent(parent, j);
        old_t.lemma_node(c);
        old_t.lemma_path(pc);
        assert(pc.len() > 0);
        assert(t.index@.dom() =~= old_t.index@.dom().remove(pc));
        assert(t.wf_index()) by {
            reveal(Trie::wf_index);
            assert forall|p: Seq<u8>| #[trigger] t.index@.contains_key(p) implies {
                let i = t.index@[p];
                &&& i < t.nodes@.len()
                &&& t.paths@.contains_key(i)
                &&& t.paths@[i] == p
                &&& p.len() <= t.height@
            } by {
                old_t.lemma_path(p);
            }
        }
        assert(t.wf_nodes()) by {
            reveal(Trie::wf_nodes);
            assert forall|i: usize| #[trigger] t.paths@.contains_key(i) implies {
                &&& t.index@.contains_key(t.paths@[i])
                &&& t.index@[t.paths@[i]] == i
                &&& t.kids@.contains_key(i)
                &&& i < t.nodes@.len()
                &&& t.list_wf(i)
                &&& t.data_wf(i)
            } by {
                Self::lemma_unlink_node(old_t, t, parent, c, j, i);
            }
        }
        assert(t.wf_up()) by {
            reveal(Trie::wf_up);
            assert forall|p: Seq<u8>| #[trigger] t.index@.contains_key(p) && p.len() > 0 implies {
                &&& t.index@.contains_key(p.drop_last())
                &&& t.kids@[t.index@[p.drop_last()]].contains(t.index@[p])
            } by {
                old_t.lemma_up(p);
                old_t.lemma_path(p);
                old_t.lemma_path(p.drop_last());
                let pi = old_t.index@[p.drop_last()];
                let x = old_t.index@[p];
                if p.drop_last() == pc {
                    assert(old_t.kids@[c].contains(x));
                }
                assert(x != c);
                if pi == parent {
                    let m = choose|m: int| 0 <= m < ks.len() && ks[m] == x;
                    assert(m != j);
                    let m2 = if m < j { m } else { m - 1 };
                    assert(ks.remove(j)[m2] == x);
                }
            }
        }
        assert(t.wf_contents()) by {
            reveal(Trie::wf_contents);
            assert forall|k: Seq<u8>| #[trigger] t.contents@.contains_key(k) implies k.len() > 0
                && t.index@.contains_key(k) by {
                old_t.lemma_key(k);
                assert(old_t.data_wf(c));
            }
        }
        assert(t.wf_owner()) by {
            reveal(Trie::wf_owner);
            assert forall|e: usize| #[trigger] t.owner@.contains_key(e) implies t.paths@.contains_key(
                t.owner@[e],
            ) && t.nodes@[t.owner@[e] as int].data_idx == Some(e) by {
                let o = old_t.owner@[e];
                old_t.lemma_node(o);
                if j > 0 {
                    old_t.lemma_kid_parent(parent, j - 1);
                }
            }
        }
        assert(t.wf_free()) by {
            reveal(Trie::wf_free);
            assert forall|m: int| 0 <= m < t.nodes_free_list@.len() implies {
                let f = #[trigger] t.nodes_free_list@[m];
                0 < f < t.nodes@.len() && !t.paths@.contains_key(f)
            } by {
                if m < old_t.nodes_free_list@.len() {
                    assert(t.nodes_free_list@[m] == old_t.nodes_free_list@[m]);
                }
            }
            assert forall|a: int, b: int|
                0 <= a < t.nodes_free_list@.len() && 0 <= b < t.nodes_free_list@.len() && a
                    != b implies t.nodes_free_list@[a] != t.nodes_free_list@[b] by {
                if a < old_t.nodes_free_list@.len() {
                    assert(t.nodes_free_list@[a] == old_t.nodes_free_list@[a]);
                }
                if b < old_t.nodes_free_list@.len() {
                    assert(t.nodes_free_list@[b] == old_t.nodes_free_list@[b]);
                }
            }
        }
    }

    /// Unlinks the childless, valueless node `c`, the `j`-th child of `parent`
    /// (`prev` is the sibling before it, 0 if none), and frees its slot.
    fn unlink(&mut self, parent: usize, c: usize, prev: usize, j: Ghost<int>)
        requires
            old(self).wf_core(),
            old(self).paths@.contains_key(parent),
            0 <= j@ < old(self).kids@[parent].len(),
            old(self).kids@[parent][j@] == c,
            prev == (if j@ == 0 { 0usize } else { old(self).kids@[parent][j@ - 1] }),
            old(self).kids@[c].len() == 0,
            old(self).nodes@[c as int].data_idx is None,
            old(self).pruned_except(c),
        ensures
            final(self).wf_core(),
            final(self).pruned_except(parent),
            final(self).values@ == old(self).values@,
            final(self).values_free_list@ == old(self).values_free_list@,
            final(self).contents@ == old(self).contents@,
            final(self).nodes@.len() == old(self).nodes@.len(),
            final(self).index@ == old(self).index@.remove(old(self).paths@[c]),
            final(self).nodes_free_list@.len() == old(self).nodes_free_list@.len() + 1,
    {
        let ghost before = *self;
        let ghost ks = self.kids@[parent];
        proof {
            self.lemma_node(parent);
            self.lemma_kid_parent(parent, j@);
            self.lemma_node(c);
            if j@ > 0 {
                self.lemma_kid_parent(parent, j@ - 1);
            }
            assert(ks.no_duplicates());
        }
        let next = self.nodes[c].next_idx;
        if c == self.nodes[parent].child_first_idx {
            let mut pn = self.nodes[parent];
            if next > 0 {
                pn.child_first_idx = next;
            } else {
                pn.child_first_idx = 0;
                pn.child_last_idx = 0;
            }
            self.nodes.set(parent, pn);
        } else if c == self.nodes[parent].child_last_idx {
            let mut qn = self.nodes[prev];
            qn.next_idx = 0;
            self.nodes.set(prev, qn);
            let mut pn = self.nodes[parent];
            pn.child_last_idx = prev;
            self.nodes.set(parent, pn);
        } else {
            let mut qn = self.nodes[prev];
            qn.next_idx = next;
            self.nodes.set(prev, qn);
        }
        self.nodes_free_list.push(c);
        self.index = Ghost(self.index@.remove(before.paths@[c]));
        self.paths = Ghost(self.paths@.remove(c));
        self.kids = Ghost(self.kids@.remove(c).insert(parent, ks.remove(j@)));
        proof {
            assert(Self::unlinked(before, *self, parent, c, j@));
            Self::lemma_unlink(before, *self, parent, c, j@);
            assert(self.pruned_except(parent)) by {
                reveal(Trie::pruned_except);
                assert forall|i: usize| #[trigger] self.paths@.contains_key(i) && i != 0 && i != parent implies self.nodes@[i as int].data_idx is Some || self.kids@[i].len() > 0 by {
                    assert(before.paths@.contains_key(i));
                    before.lemma_node(i);
                    if j@ > 0 {
                        before.lemma_kid_parent(parent, j@ - 1);
                    }
                }
            }
        }
    }

    /// Removes `key`, returning the value it held, if any. Nodes left with
    /// neither a value nor children are pruned on the way back up and their
    /// slots go to the free list.
    pub fn remove(&mut self, key: &[u8]) -> (r: Option<V>)
        requires
            old(self).wf(),
        ensures
            final(self).wf(),
            final(self)@ == old(self)@.remove(key@),
            r == (if old(self)@.contains_key(key@) {
                Some(old(self)@[key@])
            } else {
                None::<V>
            }),
            final(self).arena_len() == old(self).arena_len(),
            final(self).free_node_count() >= old(self).free_node_count(),
            final(self).live_node_count() <= old(self).live_node_count(),
            final(self).free_node_count() == old(self).free_node_count() + (old(self).live_node_count() - final(self).live_node_count()),
            !old(self)@.contains_key(key@) ==> final(self).free_node_count() == old(self).free_node_count() && final(self).live_node_count() == old(self).live_node_count(),
            final(self).value_arena_len() == old(self).value_arena_len(),
            final(self).free_value_count() == old(self).free_value_count() + (if old(self)@.contains_key(key@) {
                1int
            } else {
                0int
            }),
    {
        let ghost start = *self;
        assert(key@.subrange(0, key@.len() as int) =~= key@);
        let t = match self.find_node(key, key.len()) {
            Some(t) => t,
            None => {
                proof {
                    if self@.contains_key(key@) {
                        self.lemma_key(key@);
                    }
                    assert(self@.remove(key@) =~= self@);
                }
                return None;
            },
        };
        let r = self.clear_value(t, Ghost(key@));
        let ghost cleared = *self;
        let mut depth: usize = key.len();
        let ghost mut exc: usize = t;
        assert(key@.subrange(0, 0) =~= Seq::<u8>::empty());
        while depth > 0
            invariant
                self.wf_core(),
                self.pruned_except(exc),
                exc == 0 || (self.index@.contains_key(key@.subrange(0, depth as int))
                    && exc == self.index@[key@.subrange(0, depth as int)]),
                key@.subrange(0, 0) == Seq::<u8>::empty(),
                self.contents@ == cleared.contents@,
                self.nodes@.len() == cleared.nodes@.len(),
                self.nodes_free_list@.len() >= cleared.nodes_free_list@.len(),
                self.values@ == cleared.values@,
                self.values_free_list@ == cleared.values_free_list@,
                depth <= key@.len(),
            ensures
                self.values@ == cleared.values@,
                self.values_free_list@ == cleared.values_free_list@,
                self.wf_core(),
                self.pruned_except(0),
                self.contents@ == cleared.contents@,
                self.nodes@.len() == cleared.nodes@.len(),
                self.nodes_free_list@.len() >= cleared.nodes_free_list@.len(),
            decreases depth,
        {
            let c = match self.find_node(key, depth) {
                Some(c) => c,
                None => break,
            };
            let ghost q = key@.subrange(0, depth as int);
            proof {
                self.lemma_path(q);
                self.lemma_node(c);
            }
            if self.nodes[c].data_idx.is_some() || self.nodes[c].child_first_idx != 0 {
                proof {
                    self.lemma_pruned_shift(exc, 0);
                }
                break;
            }
            proof {
                self.lemma_pruned_shift(exc, c);
                self.lemma_up(q);
                self.lemma_path(q.drop_last());
                assert(q.drop_last() =~= key@.subrange(0, depth - 1));
                assert(key@.subrange(0, depth - 1).push(key@[depth - 1]) =~= q);
            }
            let parent = match self.find_node(key, depth - 1) {
                Some(p) => p,
                None => break,
            };
            let (found, prev, pos) = self.find_child(parent, key[depth - 1]);
            assert(found == c);
            self.unlink(parent, c, prev, pos);
            proof {
                exc = parent;
            }
            depth = depth - 1;
        }
        proof {
            start.lemma_live_paths();
            self.lemma_live_paths();
            if !start@.contains_key(key@) {
                assert(self@ =~= start@);
            }
        }
        r
    }

    /// Number of node slots in the arena, live or free.
    pub fn arena_size(&self) -> (r: usize)
        ensures
            r == self.arena_len(),
    {
        self.nodes.len()
    }

    /// Number of value slots, used or free.
    pub fn value_slots(&self) -> (r: usize)
        ensures
            r == self.value_arena_len(),
    {
        self.values.len()
    }

    /// Number of value slots waiting on the free list.
    pub fn free_values(&self) -> (r: usize)
        ensures
            r == self.free_value_count(),
    {
        self.values_free_list.len()
    }

    /// Number of node slots waiting on the free list.
    pub fn free_nodes(&self) -> (r: usize)
        ensures
            r == self.free_node_count(),
    {
        self.nodes_free_list.len()
    }

    /// An empty trie: the root node alone.
    pub fn new() -> (r: Self)
        ensures
            r.wf(),
            r@ == Map::<Seq<u8>, V>::empty(),
            r.arena_len() == 1,
            r.free_node_count() == 0,
            r.live_node_count() == 1,
            r.value_arena_len() == 0,
            r.free_value_count() == 0,
    {
        let mut nodes: Vec<TrieNode> = Vec::new();
        nodes.push(
            TrieNode { key: 0, next_idx: 0, child_first_idx: 0, child_last_idx: 0, data_idx: None },
        );
        let r = Trie {
            values: Vec::new(),
            values_free_list: Vec::new(),
            nodes,
            nodes_free_list: Vec::new(),
            contents: Ghost(Map::empty()),
            index: Ghost(Map::empty().insert(Seq::empty(), 0usize)),
            paths: Ghost(Map::empty().insert(0usize, Seq::empty())),
            kids: Ghost(Map::empty().insert(0usize, Seq::empty())),
            owner: Ghost(Map::empty()),
            height: Ghost(0),
        };
        assert(r.list_wf(0));
        assert(r.index@.dom() =~= Set::<Seq<u8>>::empty().insert(Seq::<u8>::empty()));
        proof {
            reveal(Trie::wf_index);
            reveal(Trie::wf_nodes);
            reveal(Trie::wf_up);
            reveal(Trie::wf_contents);
            reveal(Trie::wf_owner);
            reveal(Trie::wf_free);
            reveal(Trie::pruned_except);
        }
        r
    }
}

impl<V: Clone> Trie<V> {
    /// The value stored under `key`, if any.
    pub fn get(&self, key: &[u8]) -> (r: Option<V>)
        requires
            self.wf(),
        ensures
            r.is_some() == self@.contains_key(key@),
            r.is_some() ==> cloned(self@[key@], r->0),
            key@.len() == 0 ==> r is None,
    {
        proof {
            self.lemma_empty_key_absent();
            if key@.len() == 0 {
                assert(key@ =~= Seq::<u8>::empty());
            }
        }
        assert(key@.subrange(0, key@.len() as int) =~= key@);
        match self.find_node(key, key.len()) {
            Some(i) => {
                proof {
                    self.lemma_path(key@);
                    self.lemma_node(i);
                }
                match self.nodes[i].data_idx {
                    Some(d) => match &self.values[d] {
                        Some(v) => Some(v.clone()),
                        None => None,
                    },
                    None => None,
                }
            },
            None => {
                proof {
                    if self@.contains_key(key@) {
                        self.lemma_key(key@);
                    }
                }
                None
            },
        }
    }
}

} // verus!
