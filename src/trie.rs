use vstd::prelude::*;

verus! {

/// One vertex of the tree. `children` holds, for each outgoing edge, its
/// symbol and the index of the child in the owning trie's node store;
/// `value` is set when a key ending here has been stored.
pub struct TrieNode {
    pub children: Vec<(char, usize)>,
    pub value: Option<i32>,
}

/// A prefix tree held as a store of nodes, the root at index 0. Deleting a
/// key clears a value and never removes a node.
pub struct Trie {
    nodes: Vec<TrieNode>,
    /// The node reached by each path from the root.
    index_of: Ghost<Map<Seq<char>, usize>>,
    /// The path from the root to each node.
    path_of: Ghost<Seq<Seq<char>>>,
}

/// `p` is a prefix of `k`.
pub open spec fn is_prefix(p: Seq<char>, k: Seq<char>) -> bool {
    p.len() <= k.len() && k.subrange(0, p.len() as int) == p
}

/// The prefixes of `k`, the empty one and `k` included.
pub open spec fn prefixes(k: Seq<char>) -> Set<Seq<char>> {
    Set::new(|p: Seq<char>| is_prefix(p, k))
}

/// Some edge in `children` is labelled `c` and leads to node `j`.
pub open spec fn has_edge(children: Seq<(char, usize)>, c: char, j: usize) -> bool {
    exists|e: int| 0 <= e < children.len() && children[e] == (c, j)
}

/// The symbols of `s`, one `char` per code point, in order.
fn symbols_of(s: &String) -> (r: Vec<char>)
    ensures
        r@ == s@,
{
    broadcast use vstd::string::axiom_spec_iter;

    let mut out: Vec<char> = Vec::new();
    for c in it: s.as_str().chars()
        invariant
            out@ == it.history(),
    {
        out.push(c);
    }
    assert(out@ =~= s@);
    out
}

/// The entries of the subtrees under the edges of node `i` from the `e`-th
/// on: for each edge in order, its symbol with the value of the node it leads
/// to, then the entries below that node.
spec fn walk(nodes: Seq<TrieNode>, i: int, e: int) -> Seq<(char, Option<i32>)>
    decreases nodes.len() - i, nodes[i].children@.len() - e,
{
    if 0 <= i < nodes.len() && 0 <= e < nodes[i].children@.len() {
        let (c, j) = nodes[i].children@[e];
        if i < j < nodes.len() {
            seq![(c, nodes[j as int].value)] + walk(nodes, j as int, 0) + walk(nodes, i, e + 1)
        } else {
            walk(nodes, i, e + 1)
        }
    } else {
        Seq::empty()
    }
}

/// The nodes whose entries `walk(nodes, i, e)` lists.
spec fn subtree(nodes: Seq<TrieNode>, i: int, e: int) -> Set<int>
    decreases nodes.len() - i, nodes[i].children@.len() - e,
{
    if 0 <= i < nodes.len() && 0 <= e < nodes[i].children@.len() {
        let j = nodes[i].children@[e].1;
        if i < j < nodes.len() {
            set![j as int].union(subtree(nodes, j as int, 0)).union(subtree(nodes, i, e + 1))
        } else {
            subtree(nodes, i, e + 1)
        }
    } else {
        Set::empty()
    }
}

/// The nodes whose entries `walk(nodes, i, e)` lists, in the same order.
spec fn walk_nodes(nodes: Seq<TrieNode>, i: int, e: int) -> Seq<int>
    decreases nodes.len() - i, nodes[i].children@.len() - e,
{
    if 0 <= i < nodes.len() && 0 <= e < nodes[i].children@.len() {
        let j = nodes[i].children@[e].1;
        if i < j < nodes.len() {
            seq![j as int] + walk_nodes(nodes, j as int, 0) + walk_nodes(nodes, i, e + 1)
        } else {
            walk_nodes(nodes, i, e + 1)
        }
    } else {
        Seq::empty()
    }
}

/// Every element of `p` stands at the same place in `q`, of which it is a prefix.
proof fn lemma_prefix_index(p: Seq<char>, q: Seq<char>, k: int)
    requires
        is_prefix(p, q),
        0 <= k < p.len(),
    ensures
        p[k] == q[k],
{
    assert(q.subrange(0, p.len() as int)[k] == q[k]);
}

/// The indices below `n` of the nodes that hold a value.
spec fn valued(nodes: Seq<TrieNode>, n: int) -> Set<int>
    decreases n,
{
    if n <= 0 {
        Set::empty()
    } else if nodes[n - 1].value is Some {
        valued(nodes, n - 1).insert(n - 1)
    } else {
        valued(nodes, n - 1)
    }
}

/// `valued(nodes, n)` is finite and holds exactly the indices below `n` of
/// the nodes that hold a value.
proof fn lemma_valued(nodes: Seq<TrieNode>, n: int)
    requires
        0 <= n <= nodes.len(),
    ensures
        valued(nodes, n).finite(),
        valued(nodes, n).len() <= n,
        forall|x: int| #[trigger]
            valued(nodes, n).contains(x) <==> 0 <= x < n && nodes[x].value is Some,
    decreases n,
{
    if n > 0 {
        lemma_valued(nodes, n - 1);
    }
}

impl View for Trie {
    type V = Map<Seq<char>, i32>;

    /// The stored keys and their values.
    closed spec fn view(&self) -> Map<Seq<char>, i32> {
        Map::new(
            |k: Seq<char>|
                self.index_of@.contains_key(k) && self.nodes@[self.index_of@[k] as int].value is Some,
            |k: Seq<char>| self.nodes@[self.index_of@[k] as int].value->0,
        )
    }
}

impl Trie {
    /// The paths that exist in the tree, whether or not a value ends there.
    pub closed spec fn paths(&self) -> Set<Seq<char>> {
        self.index_of@.dom()
    }

    /// The number of nodes, the root included.
    pub closed spec fn size(&self) -> nat {
        self.nodes@.len()
    }

    /// The paths of the nodes that `iter` lists, in the order it lists them.
    pub closed spec fn entry_paths(&self) -> Seq<Seq<char>> {
        walk_nodes(self.nodes@, 0, 0).map_values(|x: int| self.path_of@[x])
    }

    /// The index in the node store of the node at the end of path `p`.
    pub closed spec fn node_index(&self, p: Seq<char>) -> int {
        self.index_of@[p] as int
    }

    /// `node` is the node at the end of path `p`: it holds the value stored
    /// under `p`, has an edge labelled `c` exactly when `p + c` is a path, and
    /// each edge leads to the node of the path it spells.
    pub open spec fn node_matches(&self, node: TrieNode, p: Seq<char>) -> bool {
        &&& node.value == self.value_at(p)
        &&& forall|c: char|
            (exists|e: int| 0 <= e < node.children@.len() && #[trigger] node.children@[e].0 == c)
                <==> self.paths().contains(p.push(c))
        &&& forall|e: int|
            0 <= e < node.children@.len() ==> #[trigger] node.children@[e].1 as int
                == self.node_index(p.push(node.children@[e].0))
    }

    /// The value stored under `k`, if any.
    pub open spec fn value_at(&self, k: Seq<char>) -> Option<i32> {
        if self@.contains_key(k) {
            Some(self@[k])
        } else {
            None
        }
    }

    pub closed spec fn wf(&self) -> bool {
        let n = self.nodes@.len();
        &&& n >= 1
        &&& self.path_of@.len() == n
        &&& self.path_of@[0] == Seq::<char>::empty()
        &&& forall|p: Seq<char>| #[trigger]
            self.index_of@.contains_key(p) ==> self.index_of@[p] < n
                && self.path_of@[self.index_of@[p] as int] == p
        &&& forall|i: int|
            0 <= i < n ==> self.index_of@.contains_key(#[trigger] self.path_of@[i])
                && self.index_of@[self.path_of@[i]] == i
        &&& forall|i: int, e: int|
            0 <= i < n && 0 <= e < self.nodes@[i].children@.len() ==> {
                let (c, j) = #[trigger] self.nodes@[i].children@[e];
                i < j < n && self.path_of@[j as int] == self.path_of@[i].push(c)
            }
        &&& forall|i: int, e1: int, e2: int|
            0 <= i < n && 0 <= e1 < self.nodes@[i].children@.len() && 0 <= e2
                < self.nodes@[i].children@.len() && e1 != e2
                ==> #[trigger] self.nodes@[i].children@[e1].0 != #[trigger] self.nodes@[i].children@[e2].0
        &&& forall|p: Seq<char>, c: char| #[trigger]
            self.index_of@.contains_key(p.push(c)) ==> self.index_of@.contains_key(p) && has_edge(
                self.nodes@[self.index_of@[p] as int].children@,
                c,
                self.index_of@[p.push(c)],
            )
    }

    /// Creates a trie with no keys: a root without children or value.
    pub fn new() -> (r: Trie)
        ensures
            r.wf(),
            r@ == Map::<Seq<char>, i32>::empty(),
            r.paths() == set![Seq::<char>::empty()],
            r.size() == 1,
    {
        let root = TrieNode { children: Vec::new(), value: None };
        let mut nodes: Vec<TrieNode> = Vec::new();
        nodes.push(root);
        let r = Trie {
            nodes,
            index_of: Ghost(Map::<Seq<char>, usize>::empty().insert(Seq::empty(), 0)),
            path_of: Ghost(Seq::<Seq<char>>::empty().push(Seq::empty())),
        };
        proof {
            assert forall|p: Seq<char>, c: char| !#[trigger] r.index_of@.contains_key(p.push(c)) by {
                assert(p.push(c).len() > 0);
            }
            assert(r@ =~= Map::<Seq<char>, i32>::empty());
            assert(r.paths() =~= set![Seq::<char>::empty()]);
        }
        r
    }

    /// Sets the value of node `i`, leaving the shape of the tree as it is.
    fn set_value(&mut self, i: usize, v: Option<i32>)
        requires
            old(self).wf(),
            i < old(self).nodes@.len(),
        ensures
            final(self).wf(),
            final(self).nodes@.len() == old(self).nodes@.len(),
            final(self).index_of == old(self).index_of,
            final(self).path_of == old(self).path_of,
            final(self).nodes@[i as int].value == v,
            forall|x: int| 0 <= x < final(self).nodes@.len() && x != i
                ==> #[trigger] final(self).nodes@[x].value == old(self).nodes@[x].value,
    {
        self.nodes[i].value = v;
        assert forall|x: int| 0 <= x < self.nodes@.len() implies
            #[trigger] self.nodes@[x].children == old(self).nodes@[x].children by {}
    }

    /// The child of node `i` along symbol `c`, if there is one.
    fn child(&self, i: usize, c: char) -> (r: Option<usize>)
        requires
            self.wf(),
            i < self.nodes@.len(),
        ensures
            r matches Some(j) ==> has_edge(self.nodes@[i as int].children@, c, j),
            r is None ==> forall|e: int|
                0 <= e < self.nodes@[i as int].children@.len()
                    ==> #[trigger] self.nodes@[i as int].children@[e].0 != c,
    {
        let children = &self.nodes[i].children;
        let mut e: usize = 0;
        while e < children.len()
            invariant
                e <= children@.len(),
                children == &self.nodes@[i as int].children,
                forall|f: int| 0 <= f < e ==> #[trigger] children@[f].0 != c,
            decreases children@.len() - e,
        {
            if children[e].0 == c {
                assert(children@[e as int] == (c, children@[e as int].1));
                return Some(children[e].1);
            }
            e = e + 1;
        }
        None
    }

    proof fn lemma_prefix_closed(&self, k: Seq<char>, m: int)
        requires
            self.wf(),
            self.index_of@.contains_key(k),
            0 <= m <= k.len(),
        ensures
            self.index_of@.contains_key(k.take(m)),
        decreases k.len() - m,
    {
        if m < k.len() {
            self.lemma_prefix_closed(k, m + 1);
            assert(k.take(m + 1) =~= k.take(m).push(k[m]));
        } else {
            assert(k.take(m) =~= k);
        }
    }

    /// The node at the end of path `key`, if the path exists.
    fn locate(&self, key: &Vec<char>) -> (r: Option<usize>)
        requires
            self.wf(),
        ensures
            r is Some <==> self.index_of@.contains_key(key@),
            r matches Some(i) ==> i == self.index_of@[key@],
    {
        let mut cur: usize = 0;
        let mut m: usize = 0;
        assert(key@.take(0) =~= self.path_of@[0]);
        while m < key.len()
            invariant
                self.wf(),
                m <= key@.len(),
                self.index_of@.contains_key(key@.take(m as int)),
                self.index_of@[key@.take(m as int)] == cur,
            decreases key@.len() - m,
        {
            let c = key[m];
            assert(key@.take(m + 1) =~= key@.take(m as int).push(c));
            match self.child(cur, c) {
                Some(j) => {
                    cur = j;
                },
                None => {
                    proof {
                        if self.index_of@.contains_key(key@) {
                            self.lemma_prefix_closed(key@, m + 1);
                            let w = self.index_of@[key@.take(m as int).push(c)];
                            assert(has_edge(self.nodes@[cur as int].children@, c, w));
                        }
                    }
                    return None;
                },
            }
            m = m + 1;
        }
        assert(key@.take(m as int) =~= key@);
        Some(cur)
    }

    /// The node at the end of path `key`: `None` where the path does not
    /// exist. A node found may hold no value.
    pub fn find(&self, key: &String) -> (r: Option<&TrieNode>)
        requires
            self.wf(),
        ensures
            r is Some <==> self.paths().contains(key@),
            r matches Some(node) ==> self.node_matches(*node, key@),
    {
        let ks = symbols_of(key);
        match self.locate(&ks) {
            Some(i) => {
                proof {
                    self.lemma_node_matches(key@);
                }
                Some(&self.nodes[i])
            },
            None => None,
        }
    }

    /// The node at index `i` of the node store, as the edges of a node name
    /// it; `None` past the end of the store.
    pub fn node(&self, i: usize) -> (r: Option<&TrieNode>)
        requires
            self.wf(),
        ensures
            r is Some <==> i < self.size(),
            forall|p: Seq<char>|
                self.paths().contains(p) && self.node_index(p) == i ==> (r matches Some(node)
                    && self.node_matches(*node, p)),
    {
        if i < self.nodes.len() {
            proof {
                assert forall|p: Seq<char>|
                    self.paths().contains(p) && self.node_index(p) == i implies self.node_matches(
                    self.nodes@[i as int],
                    p,
                ) by {
                    self.lemma_node_matches(p);
                }
            }
            Some(&self.nodes[i])
        } else {
            None
        }
    }

    proof fn lemma_node_matches(&self, p: Seq<char>)
        requires
            self.wf(),
            self.paths().contains(p),
        ensures
            self.node_matches(self.nodes@[self.index_of@[p] as int], p),
    {
        let i = self.index_of@[p] as int;
        let children = self.nodes@[i].children@;
        assert(self.path_of@[i] == p);
        assert forall|c: char|
            (exists|e: int| 0 <= e < children.len() && #[trigger] children[e].0 == c)
                <==> self.paths().contains(p.push(c)) by {
            if exists|e: int| 0 <= e < children.len() && #[trigger] children[e].0 == c {
                let e = choose|e: int| 0 <= e < children.len() && #[trigger] children[e].0 == c;
                let j = children[e].1 as int;
                assert(self.path_of@[j] == p.push(c));
            }
            if self.paths().contains(p.push(c)) {
                let w = self.index_of@[p.push(c)];
                assert(has_edge(children, c, w));
                let e = choose|e: int| 0 <= e < children.len() && children[e] == (c, w);
                assert(children[e].0 == c);
            }
        }
        assert forall|e: int| 0 <= e < children.len() implies #[trigger] children[e].1 as int
            == self.node_index(p.push(children[e].0)) by {
            let j = children[e].1 as int;
            assert(self.path_of@[j] == p.push(children[e].0));
        }
    }

    /// Clears the value stored under `key` and returns it. No node is removed.
    pub fn delete(&mut self, key: &String) -> (r: Option<i32>)
        requires
            old(self).wf(),
        ensures
            final(self).wf(),
            r == old(self).value_at(key@),
            final(self)@ == old(self)@.remove(key@),
            final(self).paths() == old(self).paths(),
            final(self).size() == old(self).size(),
            !old(self).paths().contains(key@) ==> *final(self) == *old(self),
    {
        let ks = symbols_of(key);
        match self.locate(&ks) {
            Some(i) => {
                let r = self.nodes[i].value;
                self.set_value(i, None);
                proof {
                    assert(self@ =~= old(self)@.remove(key@));
                }
                r
            },
            None => None,
        }
    }

    /// Stores `value` under `string`, replacing any value stored there before.
    /// Creates the nodes that the path lacks.
    pub fn add_string(&mut self, string: String, value: i32)
        requires
            old(self).wf(),
        ensures
            final(self).wf(),
            final(self).size() <= old(self).size() + string@.len(),
            final(self)@ == old(self)@.insert(string@, value),
            final(self).paths() == old(self).paths().union(prefixes(string@)),
    {
        let ks = symbols_of(&string);
        let mut cur: usize = 0;
        let mut m: usize = 0;
        proof {
            assert(ks@.take(0) =~= self.path_of@[0]);
            assert(self.paths() =~= old(self).paths().union(
                Set::new(|p: Seq<char>| p.len() <= 0 && is_prefix(p, ks@)),
            ));
        }
        while m < ks.len()
            invariant
                self.wf(),
                m <= ks@.len(),
                ks@ == string@,
                self.nodes@.len() <= old(self).nodes@.len() + m,
                self.index_of@.contains_key(ks@.take(m as int)),
                self.index_of@[ks@.take(m as int)] == cur,
                self@ == old(self)@,
                self.paths() == old(self).paths().union(
                    Set::new(|p: Seq<char>| p.len() <= m && is_prefix(p, ks@)),
                ),
            decreases ks@.len() - m,
        {
            let c = ks[m];
            let ghost p = ks@.take(m as int);
            let ghost q = ks@.take(m + 1);
            assert(q =~= p.push(c));
            match self.child(cur, c) {
                Some(j) => {
                    cur = j;
                },
                None => {
                    let ghost pre = *self;
                    let n = self.nodes.len();
                    self.nodes.push(TrieNode { children: Vec::new(), value: None });
                    self.nodes[cur].children.push((c, n));
                    proof {
                        assert(!pre.index_of@.contains_key(q)) by {
                            if pre.index_of@.contains_key(q) {
                                let w = pre.index_of@[q];
                                assert(has_edge(pre.nodes@[cur as int].children@, c, w));
                            }
                        }
                        self.index_of@ = self.index_of@.insert(q, n);
                        self.path_of@ = self.path_of@.push(q);
                        assert(self.nodes@[cur as int].children@.last() == (c, n));
                        assert forall|p2: Seq<char>, c2: char| #[trigger]
                            self.index_of@.contains_key(p2.push(c2)) implies
                                self.index_of@.contains_key(p2) && has_edge(
                                    self.nodes@[self.index_of@[p2] as int].children@,
                                    c2,
                                    self.index_of@[p2.push(c2)],
                                ) by {
                            if p2.push(c2) == q {
                                assert(p2.push(c2).len() == p.push(c).len());
                                assert(p2 =~= p) by {
                                    assert forall|x: int| 0 <= x < p.len() implies p2[x] == p[x] by {
                                        assert(p2.push(c2)[x] == p.push(c)[x]);
                                    }
                                }
                                assert(p2.push(c2)[p.len() as int] == p.push(c)[p.len() as int]);
                                let e = self.nodes@[cur as int].children@.len() - 1;
                                assert(self.nodes@[cur as int].children@[e] == (c, n));
                            } else {
                                assert(pre.index_of@.contains_key(p2.push(c2)));
                                let i2 = pre.index_of@[p2];
                                let w = pre.index_of@[p2.push(c2)];
                                assert(has_edge(pre.nodes@[i2 as int].children@, c2, w));
                                let e = choose|e: int|
                                    0 <= e < pre.nodes@[i2 as int].children@.len()
                                        && pre.nodes@[i2 as int].children@[e] == (c2, w);
                                assert(self.nodes@[i2 as int].children@[e] == (c2, w));
                            }
                        }
                        assert forall|i: int, e: int|
                            0 <= i < self.nodes@.len() && 0 <= e
                                < self.nodes@[i].children@.len() implies {
                                let (c3, j3) = #[trigger] self.nodes@[i].children@[e];
                                i < j3 < self.nodes@.len() && self.path_of@[j3 as int]
                                    == self.path_of@[i].push(c3)
                            } by {
                            if i != cur || e < pre.nodes@[i].children@.len() {
                                assert(self.nodes@[i].children@[e] == pre.nodes@[i].children@[e]);
                            }
                        }
                        assert(self@ =~= old(self)@);
                        assert(self.paths() =~= old(self).paths().union(
                            Set::new(|p3: Seq<char>| p3.len() <= m + 1 && is_prefix(p3, ks@)),
                        ));
                    }
                    cur = n;
                },
            }
            proof {
                assert(self.paths() =~= old(self).paths().union(
                    Set::new(|p3: Seq<char>| p3.len() <= m + 1 && is_prefix(p3, ks@)),
                ));
            }
            m = m + 1;
        }
        assert(ks@.take(m as int) =~= string@);
        self.set_value(cur, Some(value));
        proof {
            assert(self@ =~= old(self)@.insert(string@, value));
            assert(self.paths() =~= old(self).paths().union(prefixes(string@)));
        }
    }

    /// The stored keys are finitely many, and each is a path of the tree. The
    /// paths are finitely many, one per node; the empty path is always there,
    /// and every prefix of a path is a path.
    pub proof fn lemma_stored_keys(&self)
        requires
            self.wf(),
        ensures
            self@.dom().finite(),
            self@.dom().subset_of(self.paths()),
            self.paths().finite(),
            self.paths().contains(Seq::<char>::empty()),
            forall|p: Seq<char>, c: char| #[trigger]
                self.paths().contains(p.push(c)) ==> self.paths().contains(p),
            self.size() == self.paths().len(),
    {
        self.lemma_view_len();
        self.lemma_entries_len();
        assert(self.index_of@.contains_key(self.path_of@[0]));
    }

    /// The stored keys are as many as the nodes that hold a value.
    proof fn lemma_view_len(&self)
        requires
            self.wf(),
        ensures
            self@.dom().finite(),
            self@.dom().len() == valued(self.nodes@, self.nodes@.len() as int).len(),
    {
        let n = self.nodes@.len() as int;
        let x = valued(self.nodes@, n);
        let f = |i: int| self.path_of@[i];
        lemma_valued(self.nodes@, n);
        assert(vstd::relations::injective_on(f, x)) by {
            assert forall|a: int, b: int| x.contains(a) && x.contains(b) && #[trigger] f(a) == #[trigger] f(b)
                implies a == b by {
                assert(self.index_of@[self.path_of@[a]] == a);
                assert(self.index_of@[self.path_of@[b]] == b);
            }
        }
        assert(x.map(f) =~= self@.dom()) by {
            assert forall|k: Seq<char>| #[trigger] self@.dom().contains(k) implies x.map(f).contains(k) by {
                let i = self.index_of@[k] as int;
                assert(x.contains(i) && f(i) == k);
            }
        }
        vstd::set_lib::lemma_map_size(x, self@.dom(), f);
    }

    /// The number of stored keys.
    pub fn length(&self) -> (r: usize)
        requires
            self.wf(),
        ensures
            r == self@.len(),
    {
        let mut count: usize = 0;
        let mut i: usize = 0;
        while i < self.nodes.len()
            invariant
                i <= self.nodes@.len(),
                count == valued(self.nodes@, i as int).len(),
                count <= i,
            decreases self.nodes@.len() - i,
        {
            proof {
                lemma_valued(self.nodes@, i as int);
            }
            if self.nodes[i].value.is_some() {
                count = count + 1;
            }
            i = i + 1;
        }
        proof {
            self.lemma_view_len();
        }
        count
    }

    /// `walk(i, e)` has one entry for each node below the `e`-th and later
    /// edges of node `i`, and those are the nodes whose path runs through them.
    proof fn lemma_walk_len(&self, i: int, e: int)
        requires
            self.wf(),
            0 <= i < self.nodes@.len(),
            0 <= e,
        ensures
            subtree(self.nodes@, i, e).finite(),
            walk(self.nodes@, i, e).len() == subtree(self.nodes@, i, e).len(),
            forall|x: int| #[trigger]
                subtree(self.nodes@, i, e).contains(x) ==> {
                    &&& 0 <= x < self.nodes@.len()
                    &&& self.path_of@[i].len() < self.path_of@[x].len()
                    &&& is_prefix(self.path_of@[i], self.path_of@[x])
                    &&& exists|f: int|
                        e <= f < self.nodes@[i].children@.len()
                            && #[trigger] self.nodes@[i].children@[f].0
                            == self.path_of@[x][self.path_of@[i].len() as int]
                },
        decreases self.nodes@.len() - i, self.nodes@[i].children@.len() - e,
    {
        let nodes = self.nodes@;
        let children = nodes[i].children@;
        if e < children.len() {
            let (c, j) = children[e];
            let ji = j as int;
            assert(i < ji < nodes.len());
            self.lemma_walk_len(ji, 0);
            self.lemma_walk_len(i, e + 1);
            let pi = self.path_of@[i];
            let pj = self.path_of@[ji];
            assert(pj == pi.push(c));
            let a = set![ji];
            let b = subtree(nodes, ji, 0);
            let d = subtree(nodes, i, e + 1);
            assert forall|x: int| #[trigger] b.contains(x) implies
                is_prefix(pi, self.path_of@[x]) && self.path_of@[x][pi.len() as int] == c by {
                let px = self.path_of@[x];
                assert(px.subrange(0, pj.len() as int) == pj);
                assert(px.subrange(0, pi.len() as int) =~= pj.subrange(0, pi.len() as int));
                assert(pj.subrange(0, pi.len() as int) =~= pi);
                assert(px[pi.len() as int] == px.subrange(0, pj.len() as int)[pi.len() as int]);
            }
            assert(is_prefix(pi, pj)) by {
                assert(pj.subrange(0, pi.len() as int) =~= pi);
            }
            assert(pj[pi.len() as int] == c);
            assert(!d.contains(ji)) by {
                if d.contains(ji) {
                    let f = choose|f: int|
                        e + 1 <= f < children.len() && #[trigger] children[f].0 == pj[pi.len() as int];
                    assert(children[f].0 != children[e].0);
                }
            }
            assert(b.disjoint(d)) by {
                assert forall|x: int| b.contains(x) implies !d.contains(x) by {
                    if d.contains(x) {
                        let f = choose|f: int|
                            e + 1 <= f < children.len() && #[trigger] children[f].0
                                == self.path_of@[x][pi.len() as int];
                        assert(children[f].0 != children[e].0);
                    }
                }
            }
            assert(a.disjoint(b));
            assert(a.union(b).disjoint(d));
            vstd::set_lib::lemma_set_disjoint_lens(a, b);
            vstd::set_lib::lemma_set_disjoint_lens(a.union(b), d);
            assert forall|x: int| #[trigger]
                subtree(nodes, i, e).contains(x) implies exists|f: int|
                    e <= f < children.len() && #[trigger] children[f].0
                        == self.path_of@[x][pi.len() as int] by {
                if !d.contains(x) {
                    assert(children[e].0 == self.path_of@[x][pi.len() as int]);
                }
            }
        }
    }

    /// `walk(i, e)` lists, for each node of `walk_nodes(i, e)` in turn, the
    /// last symbol of its path and its value; those nodes are `subtree(i, e)`,
    /// and a node comes after every node on its path that is listed too.
    proof fn lemma_walk_nodes(&self, i: int, e: int)
        requires
            self.wf(),
            0 <= i < self.nodes@.len(),
            0 <= e,
        ensures
            walk_nodes(self.nodes@, i, e).len() == walk(self.nodes@, i, e).len(),
            forall|k: int|
                0 <= k < walk(self.nodes@, i, e).len() ==> #[trigger] walk(self.nodes@, i, e)[k]
                    == (
                    self.path_of@[walk_nodes(self.nodes@, i, e)[k]].last(),
                    self.nodes@[walk_nodes(self.nodes@, i, e)[k]].value,
                ),
            forall|k: int|
                0 <= k < walk_nodes(self.nodes@, i, e).len() ==> subtree(self.nodes@, i, e).contains(
                    #[trigger] walk_nodes(self.nodes@, i, e)[k],
                ),
            forall|x: int| #[trigger]
                subtree(self.nodes@, i, e).contains(x) ==> walk_nodes(self.nodes@, i, e).contains(x),
            forall|a: int, b: int|
                0 <= a < walk_nodes(self.nodes@, i, e).len() && 0 <= b < walk_nodes(
                    self.nodes@,
                    i,
                    e,
                ).len() && is_prefix(
                    self.path_of@[#[trigger] walk_nodes(self.nodes@, i, e)[a]],
                    self.path_of@[#[trigger] walk_nodes(self.nodes@, i, e)[b]],
                ) && self.path_of@[walk_nodes(self.nodes@, i, e)[a]].len()
                    < self.path_of@[walk_nodes(self.nodes@, i, e)[b]].len() ==> a < b,
            forall|a: int, m: int, b: int|
                0 <= a < m < b < walk_nodes(self.nodes@, i, e).len() && is_prefix(
                    self.path_of@[#[trigger] walk_nodes(self.nodes@, i, e)[a]],
                    self.path_of@[#[trigger] walk_nodes(self.nodes@, i, e)[b]],
                ) ==> is_prefix(
                    self.path_of@[walk_nodes(self.nodes@, i, e)[a]],
                    self.path_of@[#[trigger] walk_nodes(self.nodes@, i, e)[m]],
                ),
        decreases self.nodes@.len() - i, self.nodes@[i].children@.len() - e,
    {
        let nodes = self.nodes@;
        let children = nodes[i].children@;
        if e < children.len() {
            let (c, j) = children[e];
            let ji = j as int;
            assert(i < ji < nodes.len());
            self.lemma_walk_len(ji, 0);
            self.lemma_walk_len(i, e + 1);
            self.lemma_walk_nodes(ji, 0);
            self.lemma_walk_nodes(i, e + 1);
            let pi = self.path_of@[i];
            let pj = self.path_of@[ji];
            assert(pj == pi.push(c));
            let wa = walk_nodes(nodes, ji, 0);
            let wb = walk_nodes(nodes, i, e + 1);
            let wn = walk_nodes(nodes, i, e);
            assert(wn == seq![ji] + wa + wb);
            let la = wa.len() as int;
            assert(pj[pi.len() as int] == c);
            // the nodes from `j` on have `c` after the path of `i`
            assert forall|y: int| #[trigger] subtree(nodes, ji, 0).contains(y) implies
                self.path_of@[y][pi.len() as int] == c by {
                lemma_prefix_index(pj, self.path_of@[y], pi.len() as int);
            }
            // the later nodes have another symbol there
            assert forall|y: int| #[trigger] subtree(nodes, i, e + 1).contains(y) implies
                self.path_of@[y][pi.len() as int] != c && pi.len() < self.path_of@[y].len() by {
                let f = choose|f: int|
                    e + 1 <= f < children.len() && #[trigger] children[f].0
                        == self.path_of@[y][pi.len() as int];
                assert(children[f].0 != children[e].0);
            }
            assert forall|k: int| 0 <= k < walk(nodes, i, e).len() implies #[trigger] walk(nodes, i, e)[k]
                == (self.path_of@[wn[k]].last(), nodes[wn[k]].value) by {
                if k == 0 {
                } else if k < 1 + la {
                    assert(walk(nodes, i, e)[k] == walk(nodes, ji, 0)[k - 1]);
                } else {
                    assert(walk(nodes, i, e)[k] == walk(nodes, i, e + 1)[k - 1 - la]);
                }
            }
            assert forall|k: int| 0 <= k < wn.len() implies subtree(nodes, i, e).contains(#[trigger] wn[k]) by {
                if k == 0 {
                } else if k < 1 + la {
                    assert(wn[k] == wa[k - 1]);
                } else {
                    assert(wn[k] == wb[k - 1 - la]);
                }
            }
            assert forall|x: int| #[trigger] subtree(nodes, i, e).contains(x) implies wn.contains(x) by {
                if x == ji {
                    assert(wn[0] == x);
                } else if subtree(nodes, ji, 0).contains(x) {
                    let k = choose|k: int| 0 <= k < wa.len() && wa[k] == x;
                    assert(wn[k + 1] == x);
                } else {
                    let k = choose|k: int| 0 <= k < wb.len() && wb[k] == x;
                    assert(wn[k + 1 + la] == x);
                }
            }
            assert forall|a: int, b: int|
                0 <= a < wn.len() && 0 <= b < wn.len() && is_prefix(
                    self.path_of@[#[trigger] wn[a]],
                    self.path_of@[#[trigger] wn[b]],
                ) && self.path_of@[wn[a]].len() < self.path_of@[wn[b]].len() implies a < b by {
                let px = self.path_of@[wn[a]];
                let py = self.path_of@[wn[b]];
                if b == 0 {
                    // nothing on the path of `j` lies below `i`
                    assert(subtree(nodes, i, e).contains(wn[a]));
                    assert(px.len() > pi.len());
                    assert(px.len() < pj.len());
                } else if b < 1 + la {
                    assert(wn[b] == wa[b - 1]);
                    assert(subtree(nodes, ji, 0).contains(wn[b]));
                    if a == 0 {
                    } else if a < 1 + la {
                        assert(wn[a] == wa[a - 1]);
                    } else {
                        assert(wn[a] == wb[a - 1 - la]);
                        assert(subtree(nodes, i, e + 1).contains(wn[a]));
                        lemma_prefix_index(px, py, pi.len() as int);
                    }
                } else {
                    assert(wn[b] == wb[b - 1 - la]);
                    assert(subtree(nodes, i, e + 1).contains(wn[b]));
                    if a >= 1 + la {
                        assert(wn[a] == wb[a - 1 - la]);
                    }
                }
            }
            assert forall|a: int, m: int, b: int|
                0 <= a < m < b < wn.len() && is_prefix(
                    self.path_of@[#[trigger] wn[a]],
                    self.path_of@[#[trigger] wn[b]],
                ) implies is_prefix(self.path_of@[wn[a]], self.path_of@[#[trigger] wn[m]]) by {
                let px = self.path_of@[wn[a]];
                let py = self.path_of@[wn[b]];
                if a < 1 + la {
                    if a > 0 {
                        assert(wn[a] == wa[a - 1]);
                        assert(subtree(nodes, ji, 0).contains(wn[a]));
                    }
                    assert(px[pi.len() as int] == c);
                    assert(pi.len() < px.len());
                    if b >= 1 + la {
                        assert(wn[b] == wb[b - 1 - la]);
                        assert(subtree(nodes, i, e + 1).contains(wn[b]));
                        lemma_prefix_index(px, py, pi.len() as int);
                    }
                    assert(wn[b] == wa[b - 1]);
                    assert(wn[m] == wa[m - 1]);
                    if a == 0 {
                        assert(subtree(nodes, ji, 0).contains(wn[m]));
                    } else {
                        assert(wa[a - 1] == wn[a]);
                    }
                } else {
                    assert(wn[a] == wb[a - 1 - la]);
                    assert(wn[m] == wb[m - 1 - la]);
                    assert(wn[b] == wb[b - 1 - la]);
                }
            }
        }
    }

    /// A node whose path runs through the `f`-th edge of node `i`, with
    /// `e <= f`, lies in `subtree(i, e)`.
    proof fn lemma_subtree_complete(&self, i: int, e: int, f: int, x: int)
        requires
            self.wf(),
            0 <= i < self.nodes@.len(),
            0 <= x < self.nodes@.len(),
            0 <= e <= f < self.nodes@[i].children@.len(),
            self.path_of@[i].len() < self.path_of@[x].len(),
            is_prefix(self.path_of@[i], self.path_of@[x]),
            self.nodes@[i].children@[f].0 == self.path_of@[x][self.path_of@[i].len() as int],
        ensures
            subtree(self.nodes@, i, e).contains(x),
        decreases self.nodes@.len() - i, self.nodes@[i].children@.len() - e,
    {
        let children = self.nodes@[i].children@;
        let (c, j) = children[e];
        let ji = j as int;
        assert(i < ji < self.nodes@.len());
        if f > e {
            self.lemma_subtree_complete(i, e + 1, f, x);
        } else {
            let pi = self.path_of@[i];
            let pj = self.path_of@[ji];
            let px = self.path_of@[x];
            assert(px.take(pj.len() as int) =~= pj);
            if px.len() == pj.len() {
                assert(px =~= pj);
                assert(self.index_of@[px] == x);
                assert(self.index_of@[pj] == ji);
            } else {
                let c2 = px[pj.len() as int];
                let q = px.take(pj.len() as int + 1);
                assert(q =~= pj.push(c2));
                self.lemma_prefix_closed(px, pj.len() as int + 1);
                let w = self.index_of@[q];
                assert(has_edge(self.nodes@[ji].children@, c2, w));
                let f2 = choose|f2: int|
                    0 <= f2 < self.nodes@[ji].children@.len() && self.nodes@[ji].children@[f2] == (
                    c2,
                    w,
                );
                assert(is_prefix(pj, px)) by {
                    assert(px.subrange(0, pj.len() as int) =~= pj);
                }
                self.lemma_subtree_complete(ji, 0, f2, x);
            }
        }
    }

    /// The entries of the whole tree are one fewer than its paths: one for
    /// each node but the root.
    proof fn lemma_entries_len(&self)
        requires
            self.wf(),
        ensures
            walk(self.nodes@, 0, 0).len() + 1 == self.paths().len(),
            self.paths().finite(),
            self.paths().len() == self.nodes@.len(),
            subtree(self.nodes@, 0, 0) == vstd::set_lib::set_int_range(1, self.nodes@.len() as int),
    {
        let n = self.nodes@.len() as int;
        self.lemma_walk_len(0, 0);
        let s = subtree(self.nodes@, 0, 0);
        assert(s =~= vstd::set_lib::set_int_range(1, n)) by {
            assert forall|x: int| 1 <= x < n implies s.contains(x) by {
                let px = self.path_of@[x];
                assert(self.index_of@[px] == x);
                assert(self.index_of@[self.path_of@[0]] == 0);
                assert(px.len() > 0) by {
                    if px.len() == 0 {
                        assert(px =~= self.path_of@[0]);
                    }
                }
                let q = px.take(1);
                assert(q =~= Seq::<char>::empty().push(px[0]));
                self.lemma_prefix_closed(px, 1);
                let w = self.index_of@[q];
                assert(self.index_of@.contains_key(Seq::<char>::empty()));
                assert(has_edge(self.nodes@[0].children@, px[0], w));
                let f = choose|f: int|
                    0 <= f < self.nodes@[0].children@.len() && self.nodes@[0].children@[f] == (
                    px[0],
                    w,
                );
                assert(is_prefix(self.path_of@[0], px)) by {
                    assert(px.subrange(0, 0) =~= self.path_of@[0]);
                }
                self.lemma_subtree_complete(0, 0, f, x);
            }
        }
        vstd::set_lib::lemma_int_range(1, n);
        vstd::set_lib::lemma_int_range(0, n);
        let r = vstd::set_lib::set_int_range(0, n);
        let g = |i: int| self.path_of@[i];
        assert(vstd::relations::injective_on(g, r)) by {
            assert forall|a: int, b: int| r.contains(a) && r.contains(b) && #[trigger] g(a) == #[trigger] g(b)
                implies a == b by {
                assert(self.index_of@[self.path_of@[a]] == a);
                assert(self.index_of@[self.path_of@[b]] == b);
            }
        }
        assert(r.map(g) =~= self.paths()) by {
            assert forall|k: Seq<char>| #[trigger] self.paths().contains(k) implies r.map(g).contains(k) by {
                let i = self.index_of@[k] as int;
                assert(r.contains(i) && g(i) == k);
            }
        }
        vstd::set_lib::lemma_map_size(r, self.paths(), g);
    }

    /// The entries of the whole tree, told over its paths.
    proof fn lemma_iter_entries(&self)
        requires
            self.wf(),
        ensures
            self.entry_paths().len() == walk(self.nodes@, 0, 0).len(),
            self.entry_paths().no_duplicates(),
            forall|p: Seq<char>|
                self.entry_paths().contains(p) <==> self.paths().contains(p) && p.len() > 0,
            forall|k: int|
                0 <= k < self.entry_paths().len() ==> walk(self.nodes@, 0, 0)[k] == (
                    #[trigger] self.entry_paths()[k].last(),
                    self.value_at(self.entry_paths()[k]),
                ),
            forall|a: int, b: int|
                0 <= a < self.entry_paths().len() && 0 <= b < self.entry_paths().len() && is_prefix(
                    #[trigger] self.entry_paths()[a],
                    #[trigger] self.entry_paths()[b],
                ) && self.entry_paths()[a].len() < self.entry_paths()[b].len() ==> a < b,
            forall|a: int, m: int, b: int|
                0 <= a < m < b < self.entry_paths().len() && is_prefix(
                    #[trigger] self.entry_paths()[a],
                    #[trigger] self.entry_paths()[b],
                ) ==> is_prefix(self.entry_paths()[a], #[trigger] self.entry_paths()[m]),
    {
        let n = self.nodes@.len() as int;
        let wn = walk_nodes(self.nodes@, 0, 0);
        let ps = self.entry_paths();
        self.lemma_walk_len(0, 0);
        self.lemma_walk_nodes(0, 0);
        self.lemma_entries_len();
        let s = subtree(self.nodes@, 0, 0);
        assert(wn.to_set() =~= s);
        wn.lemma_no_dup_set_cardinality();
        assert forall|a: int, b: int| 0 <= a < ps.len() && 0 <= b < ps.len() && a != b implies ps[a]
            != ps[b] by {
            assert(self.index_of@[self.path_of@[wn[a]]] == wn[a]);
            assert(self.index_of@[self.path_of@[wn[b]]] == wn[b]);
        }
        assert forall|p: Seq<char>| ps.contains(p) <==> self.paths().contains(p) && p.len() > 0 by {
            if ps.contains(p) {
                let k = choose|k: int| 0 <= k < ps.len() && ps[k] == p;
                assert(s.contains(wn[k]));
            }
            if self.paths().contains(p) && p.len() > 0 {
                let x = self.index_of@[p] as int;
                assert(x != 0);
                assert(s.contains(x));
                let k = choose|k: int| 0 <= k < wn.len() && wn[k] == x;
                assert(ps[k] == p);
            }
        }
        assert forall|k: int| 0 <= k < ps.len() implies walk(self.nodes@, 0, 0)[k] == (
            #[trigger] ps[k].last(),
            self.value_at(ps[k]),
        ) by {
            assert(self.index_of@[self.path_of@[wn[k]]] == wn[k]);
        }
        assert forall|a: int, b: int|
            0 <= a < ps.len() && 0 <= b < ps.len() && is_prefix(#[trigger] ps[a], #[trigger] ps[b])
                && ps[a].len() < ps[b].len() implies a < b by {
            assert(ps[a] == self.path_of@[wn[a]]);
            assert(ps[b] == self.path_of@[wn[b]]);
        }
        assert forall|a: int, m: int, b: int|
            0 <= a < m < b < ps.len() && is_prefix(#[trigger] ps[a], #[trigger] ps[b]) implies is_prefix(
            ps[a],
            #[trigger] ps[m],
        ) by {
            assert(ps[a] == self.path_of@[wn[a]]);
            assert(ps[m] == self.path_of@[wn[m]]);
            assert(ps[b] == self.path_of@[wn[b]]);
        }
    }

    /// Appends to `out` the entries of the subtree under node `i`.
    fn walk_into(&self, i: usize, out: &mut Vec<(char, Option<i32>)>)
        requires
            self.wf(),
            i < self.nodes@.len(),
        ensures
            final(out)@ == old(out)@ + walk(self.nodes@, i as int, 0),
        decreases self.nodes@.len() - i,
    {
        let mut e: usize = 0;
        while e < self.nodes[i].children.len()
            invariant
                self.wf(),
                i < self.nodes@.len(),
                e <= self.nodes@[i as int].children@.len(),
                out@ + walk(self.nodes@, i as int, e as int) == old(out)@ + walk(
                    self.nodes@,
                    i as int,
                    0,
                ),
            decreases self.nodes@[i as int].children@.len() - e,
        {
            let (c, j) = self.nodes[i].children[e];
            assert(self.nodes@[i as int].children@[e as int] == (c, j));
            let ghost before = out@;
            out.push((c, self.nodes[j].value));
            self.walk_into(j, out);
            assert(out@ + walk(self.nodes@, i as int, e + 1) =~= before + walk(
                self.nodes@,
                i as int,
                e as int,
            ));
            e = e + 1;
        }
    }

    /// For every node but the root, in pre-order, the symbol on the edge into
    /// it and its value. Children come in the order in which they were made.
    /// Told over paths: one entry per non-empty path, the last symbol of the
    /// path with the value stored under it; a path comes before the longer
    /// paths that it begins, and those follow it without a break.
    pub fn iter(&self) -> (r: Vec<(char, Option<i32>)>)
        requires
            self.wf(),
        ensures
            r@.len() + 1 == self.paths().len(),
            r@.len() == self.entry_paths().len(),
            self.entry_paths().no_duplicates(),
            forall|p: Seq<char>|
                self.entry_paths().contains(p) <==> self.paths().contains(p) && p.len() > 0,
            forall|k: int|
                0 <= k < r@.len() ==> r@[k] == (
                    #[trigger] self.entry_paths()[k].last(),
                    self.value_at(self.entry_paths()[k]),
                ),
            forall|a: int, b: int|
                0 <= a < r@.len() && 0 <= b < r@.len() && is_prefix(
                    #[trigger] self.entry_paths()[a],
                    #[trigger] self.entry_paths()[b],
                ) && self.entry_paths()[a].len() < self.entry_paths()[b].len() ==> a < b,
            forall|a: int, m: int, b: int|
                0 <= a < m < b < r@.len() && is_prefix(
                    #[trigger] self.entry_paths()[a],
                    #[trigger] self.entry_paths()[b],
                ) ==> is_prefix(self.entry_paths()[a], #[trigger] self.entry_paths()[m]),
    {
        let mut result: Vec<(char, Option<i32>)> = Vec::new();
        self.walk_into(0, &mut result);
        assert(result@ =~= walk(self.nodes@, 0, 0));
        proof {
            self.lemma_entries_len();
            self.lemma_iter_entries();
        }
        result
    }
}

} // verus!
