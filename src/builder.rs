use vstd::prelude::*;
use crate::trie::{FlatTrie, TrieNode, child_index, nodes_wf, edges_ok};

verus! {

/// Node `m` is the target of an edge of an earlier node.
pub open spec fn has_parent(nodes: Seq<TrieNode>, m: int) -> bool {
    exists|n: int, i: int|
        0 <= n < m && 0 <= i < nodes[n].children@.len() && #[trigger] nodes[n].children@[i].1
            == m
}

/// `paths[n]` is the prefix that node `n` stands for: the root stands for the
/// empty word, an edge adds its character, every other node hangs below an
/// earlier one, and no two nodes stand for the same prefix.
pub open spec fn paths_ok(nodes: Seq<TrieNode>, paths: Seq<Seq<char>>) -> bool {
    &&& paths.len() == nodes.len()
    &&& nodes.len() >= 1
    &&& paths[0] == Seq::<char>::empty()
    &&& forall|n: int, i: int|
        0 <= n < nodes.len() && 0 <= i < nodes[n].children@.len() ==> paths[#[trigger] nodes[n].children@[i].1 as int]
            == paths[n].push(nodes[n].children@[i].0)
    &&& forall|m: int| 1 <= m < nodes.len() ==> #[trigger] has_parent(nodes, m)
    &&& forall|a: int, b: int| 0 <= a < b < nodes.len() ==> paths[a] != paths[b]
}

/// Some node that stands for `w` holds the catalog index `d`.
pub open spec fn holds_entry(nodes: Seq<TrieNode>, paths: Seq<Seq<char>>, w: Seq<char>, d: usize) -> bool {
    exists|n: int, k: int|
        0 <= n < nodes.len() && 0 <= k < nodes[n].definitions@.len() && paths[n] == w
            && #[trigger] nodes[n].definitions@[k] == d
}

/// The (word, catalog index) pairs stored in a trie.
pub open spec fn stored_entries(nodes: Seq<TrieNode>, paths: Seq<Seq<char>>) -> Set<(Seq<char>, usize)> {
    Set::new(|e: (Seq<char>, usize)| holds_entry(nodes, paths, e.0, e.1))
}

/// The definitions stored at the node that stands for `p`, in the order they
/// were stored, or none where no node stands for `p`.
pub open spec fn defs_at(nodes: Seq<TrieNode>, paths: Seq<Seq<char>>, p: Seq<char>) -> Seq<usize> {
    if exists|n: int| 0 <= n < nodes.len() && paths[n] == p {
        nodes[choose|n: int| 0 <= n < nodes.len() && paths[n] == p].definitions@
    } else {
        Seq::empty()
    }
}

/// The prefixes of `key`, the empty one and `key` itself included.
pub open spec fn key_prefixes(key: Seq<char>) -> Set<Seq<char>> {
    Set::new(|p: Seq<char>| exists|k: int| 0 <= k <= key.len() && p == #[trigger] key.subrange(0, k))
}

/// Where no two nodes share a prefix, the definitions at a node's prefix are
/// those of the node.
pub proof fn lemma_defs_at(nodes: Seq<TrieNode>, paths: Seq<Seq<char>>, n: int)
    requires
        0 <= n < nodes.len(),
        forall|a: int, b: int| 0 <= a < b < nodes.len() ==> paths[a] != paths[b],
    ensures
        defs_at(nodes, paths, paths[n]) == nodes[n].definitions@,
{
    let m = choose|m: int| 0 <= m < nodes.len() && paths[m] == paths[n];
    if m < n {
        assert(paths[m] != paths[n]);
    } else if m > n {
        assert(paths[n] != paths[m]);
    }
}

/// A trie's node count is the number of its prefixes.
proof fn lemma_node_count(nodes: Seq<TrieNode>, paths: Seq<Seq<char>>)
    requires
        paths_ok(nodes, paths),
    ensures
        nodes.len() == paths.to_set().len(),
{
    assert forall|a: int, b: int| 0 <= a < paths.len() && 0 <= b < paths.len() && a != b implies paths[a] != paths[b] by {
        if a < b {
        } else {
            assert(paths[b] != paths[a]);
        }
    }
    paths.unique_seq_to_set();
}

/// The trie under construction: nodes in the order they were created, each
/// with its edges kept sorted by character.
pub struct Trie {
    pub nodes: Vec<TrieNode>,
    /// The prefix that each node stands for.
    pub paths: Ghost<Seq<Seq<char>>>,
}

impl Trie {
    pub open spec fn wf(&self) -> bool {
        nodes_wf(self.nodes@) && paths_ok(self.nodes@, self.paths@)
    }

    pub open spec fn entries(&self) -> Set<(Seq<char>, usize)> {
        stored_entries(self.nodes@, self.paths@)
    }

    /// The definitions stored under the word `p`.
    pub open spec fn defs_at(&self, p: Seq<char>) -> Seq<usize> {
        defs_at(self.nodes@, self.paths@, p)
    }

    /// The prefixes that the nodes stand for.
    pub open spec fn prefixes(&self) -> Set<Seq<char>> {
        self.paths@.to_set()
    }

    /// A trie with a root and nothing stored.
    pub fn new() -> (r: Trie)
        ensures
            r.wf(),
            r.entries() == Set::<(Seq<char>, usize)>::empty(),
            r.nodes@.len() == 1,
            r.prefixes() == set![Seq::<char>::empty()],
            forall|p: Seq<char>| #[trigger] r.defs_at(p) == Seq::<usize>::empty(),
    {
        let mut nodes: Vec<TrieNode> = Vec::new();
        nodes.push(TrieNode { definitions: Vec::new(), children: Vec::new() });
        let ghost root_paths = seq![Seq::<char>::empty()];
        let r = Trie { nodes, paths: Ghost(root_paths) };
        assert(r.entries() =~= Set::<(Seq<char>, usize)>::empty());
        assert(r.prefixes() =~= set![Seq::<char>::empty()]) by {
            assert(root_paths[0] == Seq::<char>::empty());
        }
        assert forall|p: Seq<char>| #[trigger] r.defs_at(p) == Seq::<usize>::empty() by {
            if exists|n: int| 0 <= n < r.nodes@.len() && r.paths@[n] == p {
                let n = choose|n: int| 0 <= n < r.nodes@.len() && r.paths@[n] == p;
                assert(n == 0);
            }
        }
        r
    }

    /// The number of nodes.
    pub fn size(&self) -> (r: usize)
        ensures
            r == self.nodes@.len(),
    {
        self.nodes.len()
    }

    /// Stores `def_index` under the word `key_chars`, creating the missing
    /// nodes along its path.
    pub fn add(&mut self, key_chars: &[char], def_index: usize)
        requires
            old(self).wf(),
        ensures
            final(self).wf(),
            final(self).entries() == old(self).entries().insert((key_chars@, def_index)),
            final(self).defs_at(key_chars@) == old(self).defs_at(key_chars@).push(def_index),
            forall|p: Seq<char>| p != key_chars@ ==> #[trigger] final(self).defs_at(p) == old(self).defs_at(p),
            final(self).prefixes() == old(self).prefixes().union(key_prefixes(key_chars@)),
            final(self).nodes@.len() == final(self).prefixes().len(),
            final(self).nodes@.len() <= old(self).nodes@.len() + key_chars@.len(),
    {
        let ghost e0 = self.entries();
        let ghost s0 = *self;
        assert(key_chars@.subrange(0, 0) =~= Seq::<char>::empty());
        assert(self.paths@[0] == Seq::<char>::empty());
        assert(self.prefixes().union(key_prefixes(key_chars@.subrange(0, 0))) =~= self.prefixes()) by {
            assert forall|p: Seq<char>| key_prefixes(key_chars@.subrange(0, 0)).contains(p) implies self.prefixes().contains(p) by {
                let k = choose|k: int| 0 <= k <= 0 && p == #[trigger] key_chars@.subrange(0, 0).subrange(0, k);
                assert(p =~= Seq::<char>::empty());
                assert(self.paths@[0] == p);
            }
        }
        let mut n: usize = 0;
        let mut i: usize = 0;
        while i < key_chars.len()
            invariant
                self.wf(),
                n < self.nodes@.len(),
                i <= key_chars@.len(),
                self.paths@[n as int] == key_chars@.subrange(0, i as int),
                self.entries() == e0,
                forall|p: Seq<char>| #[trigger] self.defs_at(p) == s0.defs_at(p),
                self.prefixes() == s0.prefixes().union(key_prefixes(key_chars@.subrange(0, i as int))),
                self.nodes@.len() <= s0.nodes@.len() + i,
            decreases key_chars@.len() - i,
        {
            let c = key_chars[i];
            assert(edges_ok(self.nodes@, n as int));
            assert(key_chars@.subrange(0, i + 1) =~= key_chars@.subrange(0, i as int).push(c));
            let ghost before = self.prefixes();
            let ghost kp0 = key_prefixes(key_chars@.subrange(0, i as int));
            let ghost kp1 = key_prefixes(key_chars@.subrange(0, i + 1));
            proof {
                assert forall|p: Seq<char>| kp1.contains(p) <==> kp0.contains(p) || p == key_chars@.subrange(0, i + 1) by {
                    if kp1.contains(p) {
                        let k = choose|k: int| 0 <= k <= i + 1 && p == #[trigger] key_chars@.subrange(0, i + 1).subrange(0, k);
                        if k <= i {
                            assert(p =~= key_chars@.subrange(0, i as int).subrange(0, k));
                        } else {
                            assert(p =~= key_chars@.subrange(0, i + 1));
                        }
                    }
                    if kp0.contains(p) {
                        let k = choose|k: int| 0 <= k <= i && p == #[trigger] key_chars@.subrange(0, i as int).subrange(0, k);
                        assert(p =~= key_chars@.subrange(0, i + 1).subrange(0, k));
                    }
                    if p == key_chars@.subrange(0, i + 1) {
                        assert(p =~= key_chars@.subrange(0, i + 1).subrange(0, i + 1));
                    }
                }
            }
            match child_index(&self.nodes[n], c) {
                Ok(k) => {
                    n = self.nodes[n].children[k].1;
                    proof {
                        assert(self.paths@.to_set().contains(self.paths@[n as int]));
                        assert(self.prefixes() =~= s0.prefixes().union(kp1));
                    }
                },
                Err(p) => {
                    self.grow(n, p, c);
                    n = self.nodes.len() - 1;
                    proof {
                        assert(self.prefixes() =~= s0.prefixes().union(kp1));
                    }
                },
            }
            i = i + 1;
        }
        assert(key_chars@.subrange(0, i as int) =~= key_chars@);
        self.store(n, def_index);
        proof {
            lemma_node_count(self.nodes@, self.paths@);
        }
    }

    /// Appends `d` to the definitions of node `n`.
    fn store(&mut self, n: usize, d: usize)
        requires
            old(self).wf(),
            n < old(self).nodes@.len(),
        ensures
            final(self).wf(),
            final(self).entries() == old(self).entries().insert((old(self).paths@[n as int], d)),
            final(self).paths@ == old(self).paths@,
            final(self).nodes@.len() == old(self).nodes@.len(),
            final(self).defs_at(old(self).paths@[n as int]) == old(self).defs_at(old(self).paths@[n as int]).push(d),
            forall|p: Seq<char>| p != old(self).paths@[n as int] ==> #[trigger] final(self).defs_at(p) == old(self).defs_at(p),
    {
        let ghost nodes0 = self.nodes@;
        let ghost paths = self.paths@;
        self.nodes[n].definitions.push(d);
        let ghost nodes1 = self.nodes@;
        proof {
            assert forall|m: int| 0 <= m < nodes1.len() implies nodes1[m].children@ == nodes0[m].children@ by {}
            assert forall|m: int| 0 <= m < nodes1.len() implies #[trigger] edges_ok(nodes1, m) by {
                assert(edges_ok(nodes0, m));
            }
            assert forall|m: int| 1 <= m < nodes1.len() implies #[trigger] has_parent(nodes1, m) by {
                assert(has_parent(nodes0, m));
                let (a, b) = choose|a: int, b: int|
                    0 <= a < m && 0 <= b < nodes0[a].children@.len() && #[trigger] nodes0[a].children@[b].1 == m;
                assert(nodes1[a].children@[b].1 == m);
            }
            assert forall|e: (Seq<char>, usize)| holds_entry(nodes1, paths, e.0, e.1) <==> holds_entry(nodes0, paths, e.0, e.1) || e == (paths[n as int], d) by {
                if holds_entry(nodes1, paths, e.0, e.1) {
                    let (a, k) = choose|a: int, k: int|
                        0 <= a < nodes1.len() && 0 <= k < nodes1[a].definitions@.len() && paths[a] == e.0
                            && #[trigger] nodes1[a].definitions@[k] == e.1;
                    if a != n || k < nodes0[a].definitions@.len() {
                        assert(nodes0[a].definitions@[k] == e.1);
                    }
                }
                if holds_entry(nodes0, paths, e.0, e.1) {
                    let (a, k) = choose|a: int, k: int|
                        0 <= a < nodes0.len() && 0 <= k < nodes0[a].definitions@.len() && paths[a] == e.0
                            && #[trigger] nodes0[a].definitions@[k] == e.1;
                    assert(nodes1[a].definitions@[k] == e.1);
                }
                if e == (paths[n as int], d) {
                    assert(nodes1[n as int].definitions@[nodes0[n as int].definitions@.len() as int] == d);
                }
            }
            assert(self.entries() =~= stored_entries(nodes0, paths).insert((paths[n as int], d)));
            lemma_defs_at(nodes0, paths, n as int);
            lemma_defs_at(nodes1, paths, n as int);
            assert forall|p: Seq<char>| p != paths[n as int] implies #[trigger] defs_at(nodes1, paths, p) == defs_at(nodes0, paths, p) by {
                if exists|m: int| 0 <= m < nodes0.len() && paths[m] == p {
                    let m = choose|m: int| 0 <= m < nodes0.len() && paths[m] == p;
                    lemma_defs_at(nodes0, paths, m);
                    lemma_defs_at(nodes1, paths, m);
                }
            }
        }
    }

    /// Adds a node below node `n` through a new edge labelled `c`, placed at
    /// position `p` of its edges.
    fn grow(&mut self, n: usize, p: usize, c: char)
        requires
            old(self).wf(),
            n < old(self).nodes@.len(),
            p <= old(self).nodes@[n as int].children@.len(),
            forall|i: int| 0 <= i < p ==> old(self).nodes@[n as int].children@[i].0 < c,
            forall|i: int| p <= i < old(self).nodes@[n as int].children@.len() ==> old(self).nodes@[n as int].children@[i].0 > c,
        ensures
            final(self).wf(),
            final(self).entries() == old(self).entries(),
            final(self).nodes@.len() == old(self).nodes@.len() + 1,
            final(self).paths@[old(self).nodes@.len() as int] == old(self).paths@[n as int].push(c),
            forall|p: Seq<char>| #[trigger] final(self).defs_at(p) == old(self).defs_at(p),
            final(self).prefixes() == old(self).prefixes().insert(old(self).paths@[n as int].push(c)),
    {
        let ghost nodes0 = self.nodes@;
        let ghost paths0 = self.paths@;
        let new_idx = self.nodes.len();
        self.nodes.push(TrieNode { definitions: Vec::new(), children: Vec::new() });
        self.nodes[n].children.insert(p, (c, new_idx));
        let ghost paths_new = paths0.push(paths0[n as int].push(c));
        self.paths = Ghost(paths_new);
        let ghost nodes1 = self.nodes@;
        let ghost paths1 = self.paths@;
        proof {
            let L = nodes0.len() as int;
            let k0 = nodes0[n as int].children@;
            let k1 = nodes1[n as int].children@;
            assert(k1 =~= k0.insert(p as int, (c, new_idx)));
            assert forall|m: int| 0 <= m < L && m != n implies nodes1[m] == nodes0[m] by {}
            assert forall|i: int| 0 <= i < k1.len() implies (#[trigger] k1[i] == if i < p {
                k0[i]
            } else if i == p {
                (c, new_idx)
            } else {
                k0[i - 1]
            }) by {}
            // edges stay sorted and point forward
            assert forall|m: int| 0 <= m < nodes1.len() implies #[trigger] edges_ok(nodes1, m) by {
                if m < L {
                    assert(edges_ok(nodes0, m));
                    if m == n {
                        assert forall|i: int, j: int| 0 <= i < j < k1.len() implies k1[i].0 < k1[j].0 by {
                            if j < p {
                            } else if j == p {
                            } else if i < p {
                            } else if i == p {
                            } else {
                                assert(k0[i - 1].0 < k0[j - 1].0);
                            }
                        }
                        assert forall|i: int| 0 <= i < k1.len() implies n < #[trigger] k1[i].1 < nodes1.len() by {
                            if i < p {
                                assert(n < k0[i].1 < L);
                            } else if i > p {
                                assert(n < k0[i - 1].1 < L);
                            }
                        }
                    } else {
                        let km = nodes0[m].children@;
                        assert forall|i: int| 0 <= i < km.len() implies m < #[trigger] km[i].1 < nodes1.len() by {
                            assert(m < km[i].1 < L);
                        }
                    }
                }
            }
            assert(nodes_wf(nodes1));
            // every edge adds its character to the prefix
            assert forall|a: int, i: int|
                0 <= a < nodes1.len() && 0 <= i < nodes1[a].children@.len() implies paths1[#[trigger] nodes1[a].children@[i].1 as int]
                    == paths1[a].push(nodes1[a].children@[i].0) by {
                if a == n {
                    if i < p {
                        assert(k1[i] == k0[i]);
                        assert(paths0[k0[i].1 as int] == paths0[a].push(k0[i].0));
                        assert(k0[i].1 < L) by { assert(edges_ok(nodes0, a)); }
                    } else if i > p {
                        assert(k1[i] == k0[i - 1]);
                        assert(paths0[k0[i - 1].1 as int] == paths0[a].push(k0[i - 1].0));
                        assert(k0[i - 1].1 < L) by { assert(edges_ok(nodes0, a)); }
                    }
                } else if a < L {
                    let km = nodes0[a].children@;
                    assert(nodes1[a] == nodes0[a]);
                    assert(paths0[km[i].1 as int] == paths0[a].push(km[i].0));
                    assert(km[i].1 < L) by { assert(edges_ok(nodes0, a)); }
                }
            }
            // every node but the root hangs below an earlier one
            assert forall|m: int| 1 <= m < nodes1.len() implies #[trigger] has_parent(nodes1, m) by {
                if m == L {
                    assert(nodes1[n as int].children@[p as int].1 == m);
                } else {
                    assert(has_parent(nodes0, m));
                    let (a, b) = choose|a: int, b: int|
                        0 <= a < m && 0 <= b < nodes0[a].children@.len() && #[trigger] nodes0[a].children@[b].1 == m;
                    if a == n {
                        if b < p {
                            assert(nodes1[a].children@[b].1 == m);
                        } else {
                            assert(nodes1[a].children@[b + 1].1 == m);
                        }
                    } else {
                        assert(nodes1[a].children@[b].1 == m);
                    }
                }
            }
            // the new prefix is new
            assert forall|a: int| 0 <= a < L implies paths0[a] != paths0[n as int].push(c) by {
                if paths0[a] == paths0[n as int].push(c) {
                    assert(paths0[a].len() > 0);
                    assert(a != 0);
                    assert(has_parent(nodes0, a));
                    let (b, j) = choose|b: int, j: int|
                        0 <= b < a && 0 <= j < nodes0[b].children@.len() && #[trigger] nodes0[b].children@[j].1 == a;
                    let kb = nodes0[b].children@;
                    assert(paths0[a] == paths0[b].push(kb[j].0));
                    assert(paths0[b] =~= paths0[a].drop_last());
                    assert(paths0[n as int] =~= paths0[n as int].push(c).drop_last());
                    assert(b == n) by {
                        if b < n {
                            assert(paths0[b] != paths0[n as int]);
                        } else if b > n {
                            assert(paths0[n as int] != paths0[b]);
                        }
                    }
                    assert(kb[j].0 == paths0[a].last());
                    assert(k0[j].0 == c);
                    if j < p {
                    } else {
                    }
                }
            }
            assert(paths_ok(nodes1, paths1));
            assert forall|e: (Seq<char>, usize)| holds_entry(nodes1, paths1, e.0, e.1) <==> holds_entry(nodes0, paths0, e.0, e.1) by {
                if holds_entry(nodes1, paths1, e.0, e.1) {
                    let (a, k) = choose|a: int, k: int|
                        0 <= a < nodes1.len() && 0 <= k < nodes1[a].definitions@.len() && paths1[a] == e.0
                            && #[trigger] nodes1[a].definitions@[k] == e.1;
                    assert(a < L);
                    assert(nodes0[a].definitions@[k] == e.1);
                }
                if holds_entry(nodes0, paths0, e.0, e.1) {
                    let (a, k) = choose|a: int, k: int|
                        0 <= a < nodes0.len() && 0 <= k < nodes0[a].definitions@.len() && paths0[a] == e.0
                            && #[trigger] nodes0[a].definitions@[k] == e.1;
                    assert(nodes1[a].definitions@[k] == e.1);
                }
            }
            assert(self.entries() =~= stored_entries(nodes0, paths0));
            assert(paths1.to_set() =~= paths0.to_set().insert(paths0[n as int].push(c))) by {
                assert forall|q: Seq<char>| paths1.contains(q) <==> paths0.contains(q) || q == paths0[n as int].push(c) by {
                    if paths1.contains(q) {
                        let k = choose|k: int| 0 <= k < paths1.len() && paths1[k] == q;
                        if k < L {
                            assert(paths0[k] == q);
                        }
                    }
                    if paths0.contains(q) {
                        let k = choose|k: int| 0 <= k < paths0.len() && paths0[k] == q;
                        assert(paths1[k] == q);
                    }
                    if q == paths0[n as int].push(c) {
                        assert(paths1[L] == q);
                    }
                }
            }
            assert forall|q: Seq<char>| #[trigger] defs_at(nodes1, paths1, q) == defs_at(nodes0, paths0, q) by {
                if exists|m: int| 0 <= m < nodes1.len() && paths1[m] == q {
                    let m = choose|m: int| 0 <= m < nodes1.len() && paths1[m] == q;
                    lemma_defs_at(nodes1, paths1, m);
                    if m < L {
                        lemma_defs_at(nodes0, paths0, m);
                    } else {
                        assert(nodes1[m].definitions@ =~= Seq::<usize>::empty());
                        assert(!(exists|a: int| 0 <= a < nodes0.len() && paths0[a] == q));
                    }
                } else {
                    if exists|a: int| 0 <= a < nodes0.len() && paths0[a] == q {
                        let a = choose|a: int| 0 <= a < nodes0.len() && paths0[a] == q;
                        assert(paths1[a] == q);
                    }
                }
            }
        }
    }

    /// Freezes the trie into the form that queries run on. Nodes are
    /// renumbered in depth-first pre-order, edges taken in character order:
    /// the root stays at 0 and every node comes after its parent.
    pub fn flatten(self) -> (r: FlatTrie)
        requires
            self.wf(),
        ensures
            r.wf(),
            paths_ok(r.nodes@, r.paths@),
            stored_entries(r.nodes@, r.paths@) == self.entries(),
            r.nodes@.len() == self.nodes@.len(),
            r.paths@.to_set() == self.prefixes(),
            forall|p: Seq<char>| #[trigger] defs_at(r.nodes@, r.paths@, p) == self.defs_at(p),
    {
        let ghost no_paths = Seq::<Seq<char>>::empty();
        let mut out = FlatTrie { nodes: Vec::new(), paths: Ghost(no_paths) };
        let root = self.copy_subtree(0, &mut out);
        proof {
            let o = out.nodes@;
            let q = out.paths@;
            assert(root == 0);
            assert(nodes_wf(o));
            let sub = subtree_entries(self.nodes@, self.paths@, self.paths@[0]);
            assert(self.paths@[0] == Seq::<char>::empty());
            assert forall|e: (Seq<char>, usize)| #[trigger] stored_entries(o, q).contains(e) <==> self.entries().contains(e) by {
                assert(crate::laws::is_prefix(Seq::<char>::empty(), e.0)) by {
                    assert(e.0.subrange(0, 0) =~= Seq::<char>::empty());
                }
                if stored_entries(o, q).contains(e) {
                    let (k, t) = choose|k: int, t: int|
                        0 <= k < o.len() && 0 <= t < o[k].definitions@.len() && q[k] == e.0
                            && #[trigger] o[k].definitions@[t] == e.1;
                    assert(range_entries(o, q, 0, o.len() as int).contains(e));
                    assert(sub.contains(e));
                }
                if self.entries().contains(e) {
                    assert(sub.contains(e));
                    assert(range_entries(o, q, 0, o.len() as int).contains(e));
                    let (k, t) = choose|k: int, t: int|
                        0 <= k < o.len() && 0 <= t < o[k].definitions@.len() && q[k] == e.0
                            && #[trigger] o[k].definitions@[t] == e.1;
                    assert(holds_entry(o, q, e.0, e.1));
                }
            }
            assert(stored_entries(o, q) =~= self.entries());
            let sp = subtree_paths(self.paths@, self.paths@[0]);
            assert forall|x: Seq<char>| #[trigger] q.to_set().contains(x) <==> self.paths@.to_set().contains(x) by {
                assert(crate::laws::is_prefix(Seq::<char>::empty(), x)) by {
                    assert(x.subrange(0, 0) =~= Seq::<char>::empty());
                }
                if q.contains(x) {
                    let k = choose|k: int| 0 <= k < q.len() && q[k] == x;
                    assert(range_paths(q, 0, o.len() as int).contains(x));
                    assert(sp.contains(x));
                }
                if self.paths@.contains(x) {
                    assert(sp.contains(x));
                    assert(range_paths(q, 0, o.len() as int).contains(x));
                    let k = choose|k: int| 0 <= k < o.len() && q[k] == x;
                    assert(q.contains(x));
                }
            }
            assert(q.to_set() =~= self.paths@.to_set());
            lemma_node_count(o, q);
            lemma_node_count(self.nodes@, self.paths@);
            assert forall|x: Seq<char>| #[trigger] defs_at(o, q, x) == self.defs_at(x) by {
                if exists|k: int| 0 <= k < o.len() && q[k] == x {
                    let k = choose|k: int| 0 <= k < o.len() && q[k] == x;
                    assert(copied(self.nodes@, self.paths@, o, q, k));
                    let m = choose|m: int| 0 <= m < self.nodes@.len() && self.paths@[m] == q[k] && o[k].definitions@ == self.nodes@[m].definitions@;
                    lemma_defs_at(o, q, k);
                    lemma_defs_at(self.nodes@, self.paths@, m);
                } else {
                    if exists|m: int| 0 <= m < self.nodes@.len() && self.paths@[m] == x {
                        let m = choose|m: int| 0 <= m < self.nodes@.len() && self.paths@[m] == x;
                        assert(self.paths@.to_set().contains(x));
                        assert(q.to_set().contains(x));
                        let k = choose|k: int| 0 <= k < q.len() && q[k] == x;
                    }
                }
            }
        }
        out
    }

    /// Appends to `out`, in depth-first pre-order, a copy of the subtree
    /// below node `n`, and returns the index of the copy of `n`.
    fn copy_subtree(&self, n: usize, out: &mut FlatTrie) -> (r: usize)
        requires
            self.wf(),
            n < self.nodes@.len(),
            out_ok(old(out).nodes@, old(out).paths@),
            forall|k: int| 0 <= k < old(out).nodes@.len() ==> !crate::laws::is_prefix(self.paths@[n as int], #[trigger] old(out).paths@[k]),
        ensures
            out_ok(final(out).nodes@, final(out).paths@),
            r == old(out).nodes@.len(),
            final(out).nodes@.len() > r,
            forall|k: int| 0 <= k < r ==> #[trigger] final(out).nodes@[k] == old(out).nodes@[k] && final(out).paths@[k] == old(out).paths@[k],
            final(out).paths@[r as int] == self.paths@[n as int],
            forall|k: int| r <= k < final(out).nodes@.len() ==> crate::laws::is_prefix(self.paths@[n as int], #[trigger] final(out).paths@[k]),
            forall|k: int| r < k < final(out).nodes@.len() ==> #[trigger] has_parent(final(out).nodes@, k),
            range_entries(final(out).nodes@, final(out).paths@, r as int, final(out).nodes@.len() as int)
                == subtree_entries(self.nodes@, self.paths@, self.paths@[n as int]),
            forall|k: int| r <= k < final(out).nodes@.len() ==> #[trigger] copied(self.nodes@, self.paths@, final(out).nodes@, final(out).paths@, k),
            range_paths(final(out).paths@, r as int, final(out).nodes@.len() as int)
                == subtree_paths(self.paths@, self.paths@[n as int]),
        decreases self.nodes@.len() - n,
    {
        let ghost nodes = self.nodes@;
        let ghost paths = self.paths@;
        let ghost pn = paths[n as int];
        let ghost o0 = out.nodes@;
        let ghost q0 = out.paths@;
        let j = out.nodes.len();
        let defs = copy_defs(&self.nodes[n].definitions);
        out.nodes.push(TrieNode { definitions: defs, children: Vec::new() });
        let ghost q1 = q0.push(pn);
        out.paths = Ghost(q1);
        proof {
            let o = out.nodes@;
            assert forall|k: int| 0 <= k < o.len() implies #[trigger] edges_ok(o, k) by {
                if k < j {
                    assert(o[k] == o0[k]);
                    assert(edges_ok(o0, k));
                }
            }
            assert forall|k: int, i: int| 0 <= k < o.len() && 0 <= i < o[k].children@.len() implies q1[#[trigger] o[k].children@[i].1 as int] == q1[k].push(o[k].children@[i].0) by {
                assert(o[k] == o0[k]);
                assert(edges_ok(o0, k));
            }
            assert forall|a: int, b: int| 0 <= a < b < o.len() implies q1[a] != q1[b] by {
                if b == j {
                    assert(!crate::laws::is_prefix(pn, q0[a]));
                    if q1[a] == pn {
                        assert(q0[a].subrange(0, pn.len() as int) =~= q0[a]);
                    }
                }
            }
            assert(pn.subrange(0, pn.len() as int) =~= pn);
            assert forall|e: (Seq<char>, usize)| #[trigger] range_entries(o, q1, j as int, o.len() as int).contains(e) <==> node_entries(nodes, paths, n as int).contains(e) by {
                if node_entries(nodes, paths, n as int).contains(e) {
                    let t = choose|t: int| 0 <= t < nodes[n as int].definitions@.len() && nodes[n as int].definitions@[t] == e.1;
                    assert(o[j as int].definitions@[t] == e.1);
                }
                if range_entries(o, q1, j as int, o.len() as int).contains(e) {
                    let (k, t) = choose|k: int, t: int|
                        j <= k < o.len() && 0 <= t < o[k].definitions@.len() && q1[k] == e.0
                            && #[trigger] o[k].definitions@[t] == e.1;
                    assert(k == j);
                    assert(nodes[n as int].definitions@[t] == e.1);
                }
            }
            assert(range_entries(o, q1, j as int, o.len() as int) =~= node_entries(nodes, paths, n as int));
            assert(copied(nodes, paths, o, q1, j as int));
            assert(range_paths(q1, j as int, o.len() as int) =~= set![pn].union(kid_paths(nodes, paths, n as int, 0)));
        }
        let kids_len = self.nodes[n].children.len();
        let mut i: usize = 0;
        while i < kids_len
            invariant
                self.wf(),
                nodes == self.nodes@,
                paths == self.paths@,
                pn == paths[n as int],
                n < nodes.len(),
                kids_len == nodes[n as int].children@.len(),
                i <= kids_len,
                j == o0.len(),
                q0.len() == o0.len(),
                out.nodes@.len() > j,
                out_ok(out.nodes@, out.paths@),
                forall|k: int| 0 <= k < j ==> #[trigger] out.nodes@[k] == o0[k] && out.paths@[k] == q0[k],
                out.paths@[j as int] == pn,
                out.nodes@[j as int].definitions@ == nodes[n as int].definitions@,
                out.nodes@[j as int].children@.len() == i,
                forall|h: int| 0 <= h < i ==> #[trigger] out.nodes@[j as int].children@[h].0 == nodes[n as int].children@[h].0,
                forall|k: int| 0 <= k < o0.len() ==> !crate::laws::is_prefix(pn, #[trigger] q0[k]),
                forall|k: int| j < k < out.nodes@.len() ==> {
                    &&& crate::laws::is_prefix(pn, #[trigger] out.paths@[k])
                    &&& out.paths@[k].len() > pn.len()
                    &&& (i < kids_len ==> out.paths@[k][pn.len() as int] < nodes[n as int].children@[i as int].0)
                },
                forall|k: int| j < k < out.nodes@.len() ==> #[trigger] has_parent(out.nodes@, k),
                range_entries(out.nodes@, out.paths@, j as int, out.nodes@.len() as int)
                    == node_entries(nodes, paths, n as int).union(kids_entries(nodes, paths, n as int, i as int)),
                forall|k: int| j <= k < out.nodes@.len() ==> #[trigger] copied(nodes, paths, out.nodes@, out.paths@, k),
                range_paths(out.paths@, j as int, out.nodes@.len() as int)
                    == set![pn].union(kid_paths(nodes, paths, n as int, i as int)),
            decreases kids_len - i,
        {
            let (c, m) = self.nodes[n].children[i];
            let ghost o1 = out.nodes@;
            let ghost q1 = out.paths@;
            proof {
                assert(edges_ok(nodes, n as int));
                assert(paths[m as int] == pn.push(c));
                assert forall|k: int| 0 <= k < o1.len() implies !crate::laws::is_prefix(paths[m as int], #[trigger] q1[k]) by {
                    if crate::laws::is_prefix(paths[m as int], q1[k]) {
                        let pm = paths[m as int];
                        assert(q1[k].subrange(0, pm.len() as int) == pm);
                        assert(pm[pn.len() as int] == c);
                        assert(q1[k].subrange(0, pm.len() as int)[pn.len() as int] == q1[k][pn.len() as int]);
                        assert(q1[k][pn.len() as int] == c);
                        if k < j {
                            assert(o1[k] == o0[k]);
                            assert(q1[k] == q0[k]);
                            assert(q0[k].subrange(0, pn.len() as int) =~= pm.subrange(0, pn.len() as int));
                            assert(pm.subrange(0, pn.len() as int) =~= pn);
                            assert(crate::laws::is_prefix(pn, q0[k]));
                        } else if k == j {
                        } else {
                        }
                    }
                }
            }
            let cj = self.copy_subtree(m, out);
            let ghost o2 = out.nodes@;
            let ghost q2 = out.paths@;
            out.nodes[j].children.push((c, cj));
            let ghost o3 = out.nodes@;
            proof {
                let kids = nodes[n as int].children@;
                let L1 = o1.len() as int;
                let L3 = o3.len() as int;
                assert(cj == L1);
                assert(o3[j as int].children@ == o2[j as int].children@.push((c, cj)));
                assert(o2[j as int] == o1[j as int]);
                assert forall|k: int| 0 <= k < L3 && k != j implies #[trigger] o3[k] == o2[k] by {}
                assert(edges_ok(nodes, n as int));
                // the edges of the copy of `n` stay sorted and forward
                assert forall|k: int| 0 <= k < L3 implies #[trigger] edges_ok(o3, k) by {
                    assert(edges_ok(o2, k));
                    if k == j {
                        let kj = o3[k].children@;
                        assert forall|a: int, b: int| 0 <= a < b < kj.len() implies kj[a].0 < kj[b].0 by {
                            if b == i {
                                assert(kj[a].0 == kids[a].0);
                            } else {
                                assert(kj[a] == o2[k].children@[a]);
                                assert(kj[b] == o2[k].children@[b]);
                            }
                        }
                        assert forall|a: int| 0 <= a < kj.len() implies k < #[trigger] kj[a].1 < L3 by {
                            if a < i {
                                assert(kj[a] == o2[k].children@[a]);
                            }
                        }
                    }
                }
                assert forall|k: int, a: int| 0 <= k < L3 && 0 <= a < o3[k].children@.len() implies q2[#[trigger] o3[k].children@[a].1 as int] == q2[k].push(o3[k].children@[a].0) by {
                    if k == j && a == i {
                    } else if k == j {
                        assert(o3[k].children@[a] == o2[k].children@[a]);
                    }
                }
                assert(out_ok(o3, q2));
                assert forall|k: int| j < k < L3 implies {
                    &&& crate::laws::is_prefix(pn, #[trigger] q2[k])
                    &&& q2[k].len() > pn.len()
                    &&& (i + 1 < kids_len ==> q2[k][pn.len() as int] < kids[i + 1].0)
                } by {
                    if k < L1 {
                        assert(o2[k] == o1[k]);
                        assert(q2[k] == q1[k]);
                    } else {
                        assert(crate::laws::is_prefix(pn.push(c), q2[k]));
                        assert(q2[k][pn.len() as int] == pn.push(c)[pn.len() as int]);
                        assert(q2[k].subrange(0, pn.len() as int) =~= pn.push(c).subrange(0, pn.len() as int));
                        assert(pn.push(c).subrange(0, pn.len() as int) =~= pn);
                    }
                }
                assert forall|k: int| j < k < L3 implies #[trigger] has_parent(o3, k) by {
                    if k == L1 {
                        assert(o3[j as int].children@[i as int].1 == k);
                    } else {
                        if k < L1 {
                            assert(has_parent(o1, k));
                            let (a, b) = choose|a: int, b: int|
                                0 <= a < k && 0 <= b < o1[a].children@.len() && #[trigger] o1[a].children@[b].1 == k;
                            assert(o2[a] == o1[a]);
                            assert(o3[a].children@[b] == o2[a].children@[b]);
                        } else {
                            assert(has_parent(o2, k));
                            let (a, b) = choose|a: int, b: int|
                                0 <= a < k && 0 <= b < o2[a].children@.len() && #[trigger] o2[a].children@[b].1 == k;
                            assert(o3[a].children@[b] == o2[a].children@[b]);
                        }
                    }
                }
                assert forall|h: int| 0 <= h < i + 1 implies #[trigger] o3[j as int].children@[h].0 == kids[h].0 by {
                    if h < i {
                        assert(o3[j as int].children@[h] == o2[j as int].children@[h]);
                    }
                }
                // the stored pairs grow by those of the copied subtree
                let before = range_entries(o1, q1, j as int, L1);
                let added = range_entries(o2, q2, L1, L3);
                assert forall|e: (Seq<char>, usize)| #[trigger] range_entries(o3, q2, j as int, L3).contains(e) <==> before.contains(e) || added.contains(e) by {
                    if range_entries(o3, q2, j as int, L3).contains(e) {
                        let (k, t) = choose|k: int, t: int|
                            j <= k < L3 && 0 <= t < o3[k].definitions@.len() && q2[k] == e.0
                                && #[trigger] o3[k].definitions@[t] == e.1;
                        if k < L1 {
                            assert(o1[k].definitions@[t] == e.1);
                        } else {
                            assert(o2[k].definitions@[t] == e.1);
                        }
                    }
                    if before.contains(e) {
                        let (k, t) = choose|k: int, t: int|
                            j <= k < L1 && 0 <= t < o1[k].definitions@.len() && q1[k] == e.0
                                && #[trigger] o1[k].definitions@[t] == e.1;
                        assert(o3[k].definitions@[t] == e.1);
                    }
                    if added.contains(e) {
                        let (k, t) = choose|k: int, t: int|
                            L1 <= k < L3 && 0 <= t < o2[k].definitions@.len() && q2[k] == e.0
                                && #[trigger] o2[k].definitions@[t] == e.1;
                        assert(o3[k].definitions@[t] == e.1);
                    }
                }
                assert forall|e: (Seq<char>, usize)| #[trigger] kids_entries(nodes, paths, n as int, i + 1).contains(e) <==> kids_entries(nodes, paths, n as int, i as int).contains(e) || subtree_entries(nodes, paths, paths[m as int]).contains(e) by {
                    if kids_entries(nodes, paths, n as int, i + 1).contains(e) {
                        let h = choose|h: int| 0 <= h < i + 1 && crate::laws::is_prefix(paths[#[trigger] kids[h].1 as int], e.0);
                        if h < i {
                            assert(kids_entries(nodes, paths, n as int, i as int).contains(e));
                        }
                    }
                    if subtree_entries(nodes, paths, paths[m as int]).contains(e) {
                        assert(crate::laws::is_prefix(paths[kids[i as int].1 as int], e.0));
                    }
                }
                assert(range_entries(o3, q2, j as int, L3) =~= node_entries(nodes, paths, n as int).union(kids_entries(nodes, paths, n as int, i + 1)));
                assert forall|k: int| j <= k < L3 implies #[trigger] copied(nodes, paths, o3, q2, k) by {
                    if k < L1 {
                        assert(copied(nodes, paths, o1, q1, k));
                        let mm = choose|mm: int| 0 <= mm < nodes.len() && paths[mm] == q1[k] && o1[k].definitions@ == nodes[mm].definitions@;
                        assert(o2[k] == o1[k]);
                        assert(q2[k] == q1[k]);
                        assert(o3[k].definitions@ == o2[k].definitions@);
                    } else {
                        assert(copied(nodes, paths, o2, q2, k));
                        let mm = choose|mm: int| 0 <= mm < nodes.len() && paths[mm] == q2[k] && o2[k].definitions@ == nodes[mm].definitions@;
                        assert(o3[k].definitions@ == o2[k].definitions@);
                    }
                }
                assert forall|x: Seq<char>| #[trigger] range_paths(q2, j as int, L3).contains(x) <==> range_paths(q1, j as int, L1).contains(x) || range_paths(q2, L1, L3).contains(x) by {
                    if range_paths(q2, j as int, L3).contains(x) {
                        let k = choose|k: int| j <= k < L3 && q2[k] == x;
                        if k < L1 {
                            assert(o2[k] == o1[k]);
                            assert(q1[k] == x);
                        }
                    }
                    if range_paths(q1, j as int, L1).contains(x) {
                        let k = choose|k: int| j <= k < L1 && q1[k] == x;
                        assert(o2[k] == o1[k]);
                        assert(q2[k] == x);
                    }
                }
                assert forall|x: Seq<char>| #[trigger] kid_paths(nodes, paths, n as int, i + 1).contains(x) <==> kid_paths(nodes, paths, n as int, i as int).contains(x) || subtree_paths(paths, paths[m as int]).contains(x) by {
                    if kid_paths(nodes, paths, n as int, i + 1).contains(x) {
                        let h = choose|h: int| 0 <= h < i + 1 && crate::laws::is_prefix(paths[#[trigger] kids[h].1 as int], x);
                        if h < i {
                            assert(kid_paths(nodes, paths, n as int, i as int).contains(x));
                        }
                    }
                    if subtree_paths(paths, paths[m as int]).contains(x) {
                        assert(crate::laws::is_prefix(paths[kids[i as int].1 as int], x));
                    }
                }
                assert(range_paths(q2, j as int, L3) =~= set![pn].union(kid_paths(nodes, paths, n as int, i + 1)));
            }
            i = i + 1;
        }
        proof {
            lemma_subtree_split(nodes, paths, n as int);
            lemma_subtree_paths_split(nodes, paths, n as int);
        }
        j
    }
}

/// The pairs stored below node `n` are those stored at `n` and those below
/// its edges.
proof fn lemma_subtree_split(nodes: Seq<TrieNode>, paths: Seq<Seq<char>>, n: int)
    requires
        nodes_wf(nodes),
        paths_ok(nodes, paths),
        0 <= n < nodes.len(),
    ensures
        subtree_entries(nodes, paths, paths[n]) == node_entries(nodes, paths, n).union(
            kids_entries(nodes, paths, n, nodes[n].children@.len() as int),
        ),
{
    let pn = paths[n];
    let kids = nodes[n].children@;
    let K = kids.len() as int;
    assert(edges_ok(nodes, n));
    assert forall|e: (Seq<char>, usize)| #[trigger] subtree_entries(nodes, paths, pn).contains(e) <==> node_entries(nodes, paths, n).contains(e) || kids_entries(nodes, paths, n, K).contains(e) by {
        if subtree_entries(nodes, paths, pn).contains(e) {
            let (m, t) = choose|m: int, t: int|
                0 <= m < nodes.len() && 0 <= t < nodes[m].definitions@.len() && paths[m] == e.0
                    && #[trigger] nodes[m].definitions@[t] == e.1;
            if e.0.len() == pn.len() {
                assert(e.0 =~= pn);
                if m != n {
                    if m < n {
                        assert(paths[m] != paths[n]);
                    } else {
                        assert(paths[n] != paths[m]);
                    }
                }
                assert(nodes[n].definitions@.contains(e.1));
            } else {
                let p1 = e.0.subrange(0, pn.len() as int + 1);
                assert(crate::laws::is_prefix(p1, paths[m])) by {
                    assert(p1.subrange(0, p1.len() as int) =~= p1);
                    assert(paths[m].subrange(0, p1.len() as int) =~= p1);
                }
                let a = crate::laws::lemma_prefix_node(nodes, paths, m, p1);
                assert(p1.len() > 0);
                assert(a != 0);
                assert(has_parent(nodes, a));
                let (b, h) = choose|b: int, h: int|
                    0 <= b < a && 0 <= h < nodes[b].children@.len() && #[trigger] nodes[b].children@[h].1 == a;
                assert(paths[a] == paths[b].push(nodes[b].children@[h].0));
                assert(paths[b] =~= p1.drop_last());
                assert(p1.drop_last() =~= pn);
                if b != n {
                    if b < n {
                        assert(paths[b] != paths[n]);
                    } else {
                        assert(paths[n] != paths[b]);
                    }
                }
                assert(crate::laws::is_prefix(paths[kids[h].1 as int], e.0)) by {
                    assert(e.0.subrange(0, p1.len() as int) =~= p1);
                }
                assert(holds_entry(nodes, paths, e.0, e.1));
            }
        }
        if node_entries(nodes, paths, n).contains(e) {
            let t = choose|t: int| 0 <= t < nodes[n].definitions@.len() && nodes[n].definitions@[t] == e.1;
            assert(holds_entry(nodes, paths, e.0, e.1));
            assert(pn.subrange(0, pn.len() as int) =~= pn);
        }
        if kids_entries(nodes, paths, n, K).contains(e) {
            let h = choose|h: int| 0 <= h < K && crate::laws::is_prefix(paths[#[trigger] kids[h].1 as int], e.0);
            let m = kids[h].1 as int;
            assert(paths[m] == pn.push(kids[h].0));
            assert(e.0.subrange(0, pn.len() as int) =~= paths[m].subrange(0, pn.len() as int));
            assert(pn.push(kids[h].0).subrange(0, pn.len() as int) =~= pn);
        }
    }
    assert(subtree_entries(nodes, paths, pn) =~= node_entries(nodes, paths, n).union(kids_entries(nodes, paths, n, K)));
}

/// Node `k` of `o` copies a node of the original trie: same prefix, same
/// definitions.
pub open spec fn copied(nodes: Seq<TrieNode>, paths: Seq<Seq<char>>, o: Seq<TrieNode>, q: Seq<Seq<char>>, k: int) -> bool {
    exists|m: int| 0 <= m < nodes.len() && paths[m] == q[k] && o[k].definitions@ == nodes[m].definitions@
}

/// The prefixes of the nodes `a..b`.
pub open spec fn range_paths(q: Seq<Seq<char>>, a: int, b: int) -> Set<Seq<char>> {
    Set::new(|x: Seq<char>| exists|k: int| a <= k < b && q[k] == x)
}

/// The prefixes of a trie that start with `p`.
pub open spec fn subtree_paths(paths: Seq<Seq<char>>, p: Seq<char>) -> Set<Seq<char>> {
    Set::new(|x: Seq<char>| paths.contains(x) && crate::laws::is_prefix(p, x))
}

/// The prefixes below the first `i` edges of node `n`.
pub open spec fn kid_paths(nodes: Seq<TrieNode>, paths: Seq<Seq<char>>, n: int, i: int) -> Set<Seq<char>> {
    Set::new(|x: Seq<char>| paths.contains(x) && exists|h: int|
        0 <= h < i && crate::laws::is_prefix(paths[#[trigger] nodes[n].children@[h].1 as int], x))
}

/// The prefixes below node `n` are its own and those below its edges.
proof fn lemma_subtree_paths_split(nodes: Seq<TrieNode>, paths: Seq<Seq<char>>, n: int)
    requires
        nodes_wf(nodes),
        paths_ok(nodes, paths),
        0 <= n < nodes.len(),
    ensures
        subtree_paths(paths, paths[n]) == set![paths[n]].union(
            kid_paths(nodes, paths, n, nodes[n].children@.len() as int),
        ),
{
    let pn = paths[n];
    let kids = nodes[n].children@;
    let K = kids.len() as int;
    assert(edges_ok(nodes, n));
    assert forall|x: Seq<char>| #[trigger] subtree_paths(paths, pn).contains(x) <==> x == pn || kid_paths(nodes, paths, n, K).contains(x) by {
        if subtree_paths(paths, pn).contains(x) && x != pn {
            let m = choose|m: int| 0 <= m < paths.len() && paths[m] == x;
            if x.len() == pn.len() {
                assert(x =~= pn);
            }
            let p1 = x.subrange(0, pn.len() as int + 1);
            assert(crate::laws::is_prefix(p1, paths[m])) by {
                assert(paths[m].subrange(0, p1.len() as int) =~= p1);
            }
            let a = crate::laws::lemma_prefix_node(nodes, paths, m, p1);
            assert(p1.len() > 0);
            assert(a != 0);
            assert(has_parent(nodes, a));
            let (b, h) = choose|b: int, h: int|
                0 <= b < a && 0 <= h < nodes[b].children@.len() && #[trigger] nodes[b].children@[h].1 == a;
            assert(paths[a] == paths[b].push(nodes[b].children@[h].0));
            assert(paths[b] =~= p1.drop_last());
            assert(p1.drop_last() =~= pn);
            if b != n {
                if b < n {
                    assert(paths[b] != paths[n]);
                } else {
                    assert(paths[n] != paths[b]);
                }
            }
            assert(crate::laws::is_prefix(paths[kids[h].1 as int], x)) by {
                assert(x.subrange(0, p1.len() as int) =~= p1);
            }
        }
        if x == pn {
            assert(paths[n] == x);
            assert(paths.contains(x));
            assert(pn.subrange(0, pn.len() as int) =~= pn);
        }
        if kid_paths(nodes, paths, n, K).contains(x) {
            let h = choose|h: int| 0 <= h < K && crate::laws::is_prefix(paths[#[trigger] kids[h].1 as int], x);
            let m = kids[h].1 as int;
            assert(paths[m] == pn.push(kids[h].0));
            assert(x.subrange(0, pn.len() as int) =~= paths[m].subrange(0, pn.len() as int));
            assert(pn.push(kids[h].0).subrange(0, pn.len() as int) =~= pn);
        }
    }
    assert(subtree_paths(paths, pn) =~= set![pn].union(kid_paths(nodes, paths, n, K)));
}

/// A copy of a list of catalog indices.
fn copy_defs(v: &Vec<usize>) -> (r: Vec<usize>)
    ensures
        r@ == v@,
{
    let mut r: Vec<usize> = Vec::new();
    let mut i: usize = 0;
    while i < v.len()
        invariant
            i <= v@.len(),
            r@ == v@.subrange(0, i as int),
        decreases v@.len() - i,
    {
        r.push(v[i]);
        assert(v@.subrange(0, i + 1) =~= v@.subrange(0, i as int).push(v@[i as int]));
        i = i + 1;
    }
    assert(v@.subrange(0, i as int) =~= v@);
    r
}

/// Edges of a trie being filled in: sorted, forward and consistent with the
/// prefixes, and no prefix stands twice.
pub open spec fn out_ok(nodes: Seq<TrieNode>, paths: Seq<Seq<char>>) -> bool {
    &&& paths.len() == nodes.len()
    &&& forall|k: int| 0 <= k < nodes.len() ==> #[trigger] edges_ok(nodes, k)
    &&& forall|k: int, i: int|
        0 <= k < nodes.len() && 0 <= i < nodes[k].children@.len() ==> paths[#[trigger] nodes[k].children@[i].1 as int]
            == paths[k].push(nodes[k].children@[i].0)
    &&& forall|a: int, b: int| 0 <= a < b < nodes.len() ==> paths[a] != paths[b]
}

/// The pairs stored at the nodes `a..b`.
pub open spec fn range_entries(nodes: Seq<TrieNode>, paths: Seq<Seq<char>>, a: int, b: int) -> Set<(Seq<char>, usize)> {
    Set::new(|e: (Seq<char>, usize)| exists|k: int, t: int|
        a <= k < b && 0 <= t < nodes[k].definitions@.len() && paths[k] == e.0
            && #[trigger] nodes[k].definitions@[t] == e.1)
}

/// The pairs stored at node `n` itself.
pub open spec fn node_entries(nodes: Seq<TrieNode>, paths: Seq<Seq<char>>, n: int) -> Set<(Seq<char>, usize)> {
    Set::new(|e: (Seq<char>, usize)| e.0 == paths[n] && nodes[n].definitions@.contains(e.1))
}

/// The stored pairs whose word starts with `p`.
pub open spec fn subtree_entries(nodes: Seq<TrieNode>, paths: Seq<Seq<char>>, p: Seq<char>) -> Set<(Seq<char>, usize)> {
    Set::new(|e: (Seq<char>, usize)| holds_entry(nodes, paths, e.0, e.1) && crate::laws::is_prefix(p, e.0))
}

/// The stored pairs below the first `i` edges of node `n`.
pub open spec fn kids_entries(nodes: Seq<TrieNode>, paths: Seq<Seq<char>>, n: int, i: int) -> Set<(Seq<char>, usize)> {
    Set::new(|e: (Seq<char>, usize)| holds_entry(nodes, paths, e.0, e.1) && exists|h: int|
        0 <= h < i && crate::laws::is_prefix(paths[#[trigger] nodes[n].children@[h].1 as int], e.0))
}

} // verus!
