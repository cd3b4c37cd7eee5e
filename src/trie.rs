use vstd::prelude::*;

verus! {

/// One node of a trie: the catalog indices of the words that end exactly
/// here, and the outgoing edges as (character, node index) pairs.
pub struct TrieNode {
    pub definitions: Vec<usize>,
    pub children: Vec<(char, usize)>,
}

/// The immutable, array-based trie that queries run on. Node 0 is the root.
pub struct FlatTrie {
    pub nodes: Vec<TrieNode>,
    /// The prefix that each node stands for.
    pub paths: Ghost<Seq<Seq<char>>>,
}

/// The edges of node `n` are sorted by character, without a repeated
/// character, and lead to later nodes of the array.
pub open spec fn edges_ok(nodes: Seq<TrieNode>, n: int) -> bool {
    let kids = nodes[n].children@;
    &&& forall|i: int, j: int| 0 <= i < j < kids.len() ==> kids[i].0 < kids[j].0
    &&& forall|i: int| 0 <= i < kids.len() ==> n < #[trigger] kids[i].1 < nodes.len()
}

pub open spec fn nodes_wf(nodes: Seq<TrieNode>) -> bool {
    &&& nodes.len() >= 1
    &&& forall|n: int| 0 <= n < nodes.len() ==> #[trigger] edges_ok(nodes, n)
}

/// The node that the edge labelled `c` leads to from node `n`, if there is one.
pub open spec fn child_of(nodes: Seq<TrieNode>, n: int, c: char) -> Option<int> {
    let kids = nodes[n].children@;
    if exists|i: int| 0 <= i < kids.len() && kids[i].0 == c {
        let i = choose|i: int| 0 <= i < kids.len() && kids[i].0 == c;
        Some(kids[i].1 as int)
    } else {
        None
    }
}

/// The node reached from `n` by following the characters of `term`.
pub open spec fn descend(nodes: Seq<TrieNode>, n: int, term: Seq<char>) -> Option<int>
    decreases term.len(),
{
    if term.len() == 0 {
        Some(n)
    } else {
        match child_of(nodes, n, term[0]) {
            Some(m) => descend(nodes, m, term.drop_first()),
            None => None,
        }
    }
}

/// Every catalog index stored in the subtree below node `n`: the node's own
/// first, then those below each edge in edge order.
pub open spec fn collect(nodes: Seq<TrieNode>, n: int) -> Seq<usize>
    decreases nodes.len() - n, 1int, 0int,
{
    if 0 <= n < nodes.len() {
        nodes[n].definitions@ + collect_kids(nodes, n, nodes[n].children@.len() as int)
    } else {
        Seq::empty()
    }
}

/// What lies below the first `k` edges of node `n`.
pub open spec fn collect_kids(nodes: Seq<TrieNode>, n: int, k: int) -> Seq<usize>
    decreases nodes.len() - n, 0int, k,
{
    if 0 <= n < nodes.len() && 0 < k <= nodes[n].children@.len() {
        let m = nodes[n].children@[k - 1].1 as int;
        let below = if n < m < nodes.len() {
            collect(nodes, m)
        } else {
            Seq::empty()
        };
        collect_kids(nodes, n, k - 1) + below
    } else {
        Seq::empty()
    }
}

/// The catalog indices that a query term matches: all of those below the node
/// that the term leads to, or none where it leads nowhere. An empty term
/// matches nothing.
pub open spec fn find_spec(nodes: Seq<TrieNode>, term: Seq<char>) -> Seq<usize> {
    if term.len() == 0 {
        Seq::empty()
    } else {
        match descend(nodes, 0, term) {
            Some(n) => collect(nodes, n),
            None => Seq::empty(),
        }
    }
}

impl FlatTrie {
    pub open spec fn wf(&self) -> bool {
        nodes_wf(self.nodes@)
    }
}

/// Looks up the edge labelled `c` among the sorted edges of a node: `Ok`
/// with its position, or `Err` with the position where it would be inserted.
pub(crate) fn child_index(node: &TrieNode, c: char) -> (r: Result<usize, usize>)
    requires
        forall|i: int, j: int|
            0 <= i < j < node.children@.len() ==> node.children@[i].0 < node.children@[j].0,
    ensures
        match r {
            Ok(i) => i < node.children@.len() && node.children@[i as int].0 == c,
            Err(p) => p <= node.children@.len()
                && (forall|i: int| 0 <= i < p ==> node.children@[i].0 < c)
                && (forall|i: int| p <= i < node.children@.len() ==> node.children@[i].0 > c),
        },
{
    let mut lo: usize = 0;
    let mut hi: usize = node.children.len();
    while lo < hi
        invariant
            lo <= hi <= node.children@.len(),
            forall|i: int, j: int|
                0 <= i < j < node.children@.len() ==> node.children@[i].0 < node.children@[j].0,
            forall|i: int| 0 <= i < lo ==> node.children@[i].0 < c,
            forall|i: int| hi <= i < node.children@.len() ==> node.children@[i].0 > c,
        decreases hi - lo,
    {
        let mid = lo + (hi - lo) / 2;
        let key = node.children[mid].0;
        if key == c {
            return Ok(mid);
        } else if key < c {
            lo = mid + 1;
        } else {
            hi = mid;
        }
    }
    Err(lo)
}

/// Appends to `into` every catalog index below node `n`.
fn collect_into(trie: &FlatTrie, n: usize, into: &mut Vec<usize>)
    requires
        trie.wf(),
        n < trie.nodes@.len(),
    ensures
        final(into)@ == old(into)@ + collect(trie.nodes@, n as int),
    decreases trie.nodes@.len() - n,
{
    let ghost nodes = trie.nodes@;
    let node = &trie.nodes[n];
    let mut i: usize = 0;
    while i < node.definitions.len()
        invariant
            i <= node.definitions@.len(),
            into@ == old(into)@ + node.definitions@.subrange(0, i as int),
        decreases node.definitions@.len() - i,
    {
        into.push(node.definitions[i]);
        proof {
            assert(node.definitions@.subrange(0, i + 1) =~= node.definitions@.subrange(
                0,
                i as int,
            ).push(node.definitions@[i as int]));
        }
        i = i + 1;
    }
    assert(node.definitions@.subrange(0, i as int) =~= node.definitions@);
    let mut k: usize = 0;
    while k < node.children.len()
        invariant
            trie.wf(),
            nodes == trie.nodes@,
            n < nodes.len(),
            *node == nodes[n as int],
            k <= node.children@.len(),
            into@ == old(into)@ + node.definitions@ + collect_kids(nodes, n as int, k as int),
        decreases node.children@.len() - k,
    {
        let m = node.children[k].1;
        assert(edges_ok(nodes, n as int));
        assert(n < node.children@[k as int].1 < nodes.len());
        collect_into(trie, m, into);
        k = k + 1;
    }
    proof {
        assert(collect(nodes, n as int) == node.definitions@ + collect_kids(
            nodes,
            n as int,
            node.children@.len() as int,
        ));
        assert(into@ =~= old(into)@ + collect(nodes, n as int));
    }
}

/// The characters of a string, as a vector.
pub fn chars_of(s: &str) -> (r: Vec<char>)
    ensures
        r@ == s@,
{
    let n = s.unicode_len();
    let mut r: Vec<char> = Vec::new();
    let mut i: usize = 0;
    while i < n
        invariant
            n == s@.len(),
            i <= n,
            r@ == s@.subrange(0, i as int),
        decreases n - i,
    {
        r.push(s.get_char(i));
        proof {
            assert(s@.subrange(0, i + 1) =~= s@.subrange(0, i as int).push(s@[i as int]));
        }
        i = i + 1;
    }
    assert(s@.subrange(0, n as int) =~= s@);
    r
}

/// Appends to `results` the catalog index of every entry that has a word
/// starting with `term`, one per stored occurrence: the term is followed down
/// from the root, then the whole subtree under the node it reaches is read.
pub fn find(trie: &FlatTrie, term: &str, results: &mut Vec<usize>)
    requires
        trie.wf(),
    ensures
        final(results)@ == old(results)@ + find_spec(trie.nodes@, term@),
{
    let chars = chars_of(term);
    find_in_trie(trie, &chars, results)
}

/// Follows `term` from the root and collects the subtree it leads to.
fn find_in_trie(trie: &FlatTrie, term: &Vec<char>, results: &mut Vec<usize>)
    requires
        trie.wf(),
    ensures
        final(results)@ == old(results)@ + find_spec(trie.nodes@, term@),
{
    let ghost nodes = trie.nodes@;
    if term.len() == 0 {
        assert(results@ =~= old(results)@ + find_spec(nodes, term@));
        return;
    }
    let mut n: usize = 0;
    let mut i: usize = 0;
    assert(term@.subrange(0, term@.len() as int) =~= term@);
    while i < term.len()
        invariant
            trie.wf(),
            nodes == trie.nodes@,
            n < nodes.len(),
            i <= term@.len(),
            descend(nodes, 0, term@) == descend(nodes, n as int, term@.subrange(i as int, term@.len() as int)),
        decreases term@.len() - i,
    {
        let rest = Ghost(term@.subrange(i as int, term@.len() as int));
        assert(rest@.drop_first() =~= term@.subrange(i + 1, term@.len() as int));
        assert(rest@[0] == term@[i as int]);
        assert(edges_ok(nodes, n as int));
        let node = &trie.nodes[n];
        match child_index(node, term[i]) {
            Ok(k) => {
                proof {
                    let kids = nodes[n as int].children@;
                    assert(0 <= k < kids.len() && kids[k as int].0 == term@[i as int]);
                    let j = choose|j: int| 0 <= j < kids.len() && kids[j].0 == term@[i as int];
                    if j < k {
                        assert(kids[j].0 < kids[k as int].0);
                    } else if j > k {
                        assert(kids[k as int].0 < kids[j].0);
                    }
                    assert(child_of(nodes, n as int, term@[i as int]) == Some(kids[k as int].1 as int));
                }
                n = node.children[k].1;
                i = i + 1;
            },
            Err(_) => {
                return;
            },
        }
    }
    assert(term@.subrange(i as int, term@.len() as int).len() == 0);
    collect_into(trie, n, results);
}

} // verus!
