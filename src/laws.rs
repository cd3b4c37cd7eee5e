use vstd::prelude::*;
use crate::builder::{has_parent, holds_entry, paths_ok, stored_entries};
use crate::catalog::{catalog_words, is_word_of};
use crate::search::{groups_raw, hit_count, listed, raw_stream, SearchResult};
use crate::trie::{
    FlatTrie, TrieNode, child_of, collect, collect_kids, descend, edges_ok, find_spec, nodes_wf,
};

verus! {

/// `p` is a prefix of `w`.
pub open spec fn is_prefix(p: Seq<char>, w: Seq<char>) -> bool {
    p.len() <= w.len() && p == w.subrange(0, p.len() as int)
}

/// The edge at position `b` of node `n` is the one that `child_of` picks for
/// its character.
proof fn lemma_child_of_edge(nodes: Seq<TrieNode>, n: int, b: int)
    requires
        nodes_wf(nodes),
        0 <= n < nodes.len(),
        0 <= b < nodes[n].children@.len(),
    ensures
        child_of(nodes, n, nodes[n].children@[b].0) == Some(nodes[n].children@[b].1 as int),
{
    let kids = nodes[n].children@;
    let c = kids[b].0;
    assert(edges_ok(nodes, n));
    assert(0 <= b < kids.len() && kids[b].0 == c);
    let j = choose|j: int| 0 <= j < kids.len() && kids[j].0 == c;
    if j < b {
        assert(kids[j].0 < kids[b].0);
    } else if j > b {
        assert(kids[b].0 < kids[j].0);
    }
}

proof fn lemma_descend_push(nodes: Seq<TrieNode>, x: int, p: Seq<char>, c: char)
    ensures
        descend(nodes, x, p.push(c)) == match descend(nodes, x, p) {
            Some(k) => child_of(nodes, k, c),
            None => None,
        },
    decreases p.len(),
{
    if p.len() == 0 {
        assert(p.push(c).drop_first() =~= Seq::<char>::empty());
        assert(descend(nodes, x, p.push(c)) == match child_of(nodes, x, c) {
            Some(m) => descend(nodes, m, Seq::<char>::empty()),
            None => None,
        });
    } else {
        assert(p.push(c).drop_first() =~= p.drop_first().push(c));
        assert(p.push(c)[0] == p[0]);
        match child_of(nodes, x, p[0]) {
            Some(m) => {
                lemma_descend_push(nodes, m, p.drop_first(), c);
            },
            None => {},
        }
    }
}

/// Following a term from node `x` ends at a node whose prefix is that of
/// `x` followed by the term.
proof fn lemma_descend_path(nodes: Seq<TrieNode>, paths: Seq<Seq<char>>, x: int, t: Seq<char>)
    requires
        nodes_wf(nodes),
        paths_ok(nodes, paths),
        0 <= x < nodes.len(),
        descend(nodes, x, t) is Some,
    ensures
        0 <= descend(nodes, x, t).unwrap() < nodes.len(),
        paths[descend(nodes, x, t).unwrap()] == paths[x] + t,
    decreases t.len(),
{
    if t.len() == 0 {
        assert(paths[x] + t =~= paths[x]);
    } else {
        let kids = nodes[x].children@;
        let m = child_of(nodes, x, t[0]).unwrap();
        let b = choose|i: int| 0 <= i < kids.len() && kids[i].0 == t[0];
        assert(edges_ok(nodes, x));
        assert(m == kids[b].1);
        assert(paths[kids[b].1 as int] == paths[x].push(kids[b].0));
        lemma_descend_path(nodes, paths, m, t.drop_first());
        assert(paths[x].push(t[0]) + t.drop_first() =~= paths[x] + t);
    }
}

/// Following the prefix of node `m` from the root ends at `m`.
proof fn lemma_reach(nodes: Seq<TrieNode>, paths: Seq<Seq<char>>, m: int)
    requires
        nodes_wf(nodes),
        paths_ok(nodes, paths),
        0 <= m < nodes.len(),
    ensures
        descend(nodes, 0, paths[m]) == Some(m),
    decreases m,
{
    if m > 0 {
        assert(has_parent(nodes, m));
        let (n, b) = choose|n: int, b: int|
            0 <= n < m && 0 <= b < nodes[n].children@.len() && #[trigger] nodes[n].children@[b].1 == m;
        let c = nodes[n].children@[b].0;
        assert(paths[m] == paths[n].push(c));
        lemma_reach(nodes, paths, n);
        lemma_descend_push(nodes, 0, paths[n], c);
        lemma_child_of_edge(nodes, n, b);
    }
}

/// Every prefix of a node's prefix is the prefix of some node.
pub(crate) proof fn lemma_prefix_node(nodes: Seq<TrieNode>, paths: Seq<Seq<char>>, m: int, p: Seq<char>) -> (n: int)
    requires
        nodes_wf(nodes),
        paths_ok(nodes, paths),
        0 <= m < nodes.len(),
        is_prefix(p, paths[m]),
    ensures
        0 <= n < nodes.len(),
        paths[n] == p,
    decreases m,
{
    if p.len() == paths[m].len() {
        assert(p =~= paths[m]);
        m
    } else {
        assert(m != 0);
        assert(has_parent(nodes, m));
        let (n, b) = choose|n: int, b: int|
            0 <= n < m && 0 <= b < nodes[n].children@.len() && #[trigger] nodes[n].children@[b].1 == m;
        assert(paths[m] == paths[n].push(nodes[n].children@[b].0));
        assert(p =~= paths[n].subrange(0, p.len() as int));
        lemma_prefix_node(nodes, paths, n, p)
    }
}

/// What lies below the edge at position `b` lies below the first `k` edges
/// for every `k` past `b`.
proof fn lemma_kids_contain(nodes: Seq<TrieNode>, n: int, k: int, b: int, d: usize)
    requires
        nodes_wf(nodes),
        0 <= n < nodes.len(),
        0 <= b < k <= nodes[n].children@.len(),
        collect(nodes, nodes[n].children@[b].1 as int).contains(d),
    ensures
        collect_kids(nodes, n, k).contains(d),
    decreases k,
{
    assert(edges_ok(nodes, n));
    let m = nodes[n].children@[k - 1].1 as int;
    assert(n < m < nodes.len());
    let below = collect(nodes, m);
    let rest = collect_kids(nodes, n, k - 1);
    assert(collect_kids(nodes, n, k) == rest + below);
    if b == k - 1 {
        let i = choose|i: int| 0 <= i < below.len() && below[i] == d;
        assert((rest + below)[rest.len() + i] == d);
    } else {
        lemma_kids_contain(nodes, n, k - 1, b, d);
        let i = choose|i: int| 0 <= i < rest.len() && rest[i] == d;
        assert((rest + below)[i] == d);
    }
}

/// Everything below node `m` is below every node whose prefix starts `m`'s.
proof fn lemma_subtree(nodes: Seq<TrieNode>, paths: Seq<Seq<char>>, n: int, m: int, d: usize)
    requires
        nodes_wf(nodes),
        paths_ok(nodes, paths),
        0 <= n < nodes.len(),
        0 <= m < nodes.len(),
        is_prefix(paths[n], paths[m]),
        collect(nodes, m).contains(d),
    ensures
        collect(nodes, n).contains(d),
    decreases m,
{
    if paths[n].len() == paths[m].len() {
        assert(paths[n] =~= paths[m]);
        if n != m {
            if n < m {
                assert(paths[n] != paths[m]);
            } else {
                assert(paths[m] != paths[n]);
            }
        }
    } else {
        assert(m != 0);
        assert(has_parent(nodes, m));
        let (q, b) = choose|q: int, b: int|
            0 <= q < m && 0 <= b < nodes[q].children@.len() && #[trigger] nodes[q].children@[b].1 == m;
        assert(paths[m] == paths[q].push(nodes[q].children@[b].0));
        let defs = nodes[q].definitions@;
        let kids_all = collect_kids(nodes, q, nodes[q].children@.len() as int);
        lemma_kids_contain(nodes, q, nodes[q].children@.len() as int, b, d);
        let i = choose|i: int| 0 <= i < kids_all.len() && kids_all[i] == d;
        assert(collect(nodes, q) == defs + kids_all);
        assert((defs + kids_all)[defs.len() + i] == d);
        assert(paths[n] =~= paths[q].subrange(0, paths[n].len() as int));
        lemma_subtree(nodes, paths, n, q, d);
    }
}

/// An index collected below node `n` is stored at a node whose prefix starts
/// with that of `n`.
proof fn lemma_collect_sound(nodes: Seq<TrieNode>, paths: Seq<Seq<char>>, n: int, d: usize) -> (m: int)
    requires
        nodes_wf(nodes),
        paths_ok(nodes, paths),
        0 <= n < nodes.len(),
        collect(nodes, n).contains(d),
    ensures
        0 <= m < nodes.len(),
        is_prefix(paths[n], paths[m]),
        nodes[m].definitions@.contains(d),
    decreases nodes.len() - n, 1int, 0int,
{
    let defs = nodes[n].definitions@;
    let kids_all = collect_kids(nodes, n, nodes[n].children@.len() as int);
    let i = choose|i: int| 0 <= i < (defs + kids_all).len() && (defs + kids_all)[i] == d;
    if i < defs.len() {
        assert(defs[i] == d);
        assert(paths[n] =~= paths[n].subrange(0, paths[n].len() as int));
        n
    } else {
        assert(kids_all[i - defs.len()] == d);
        lemma_kids_sound(nodes, paths, n, nodes[n].children@.len() as int, d)
    }
}

proof fn lemma_kids_sound(nodes: Seq<TrieNode>, paths: Seq<Seq<char>>, n: int, k: int, d: usize) -> (m: int)
    requires
        nodes_wf(nodes),
        paths_ok(nodes, paths),
        0 <= n < nodes.len(),
        0 <= k <= nodes[n].children@.len(),
        collect_kids(nodes, n, k).contains(d),
    ensures
        0 <= m < nodes.len(),
        is_prefix(paths[n], paths[m]),
        nodes[m].definitions@.contains(d),
    decreases nodes.len() - n, 0int, k,
{
    assert(edges_ok(nodes, n));
    let q = nodes[n].children@[k - 1].1 as int;
    assert(n < q < nodes.len());
    let below = collect(nodes, q);
    let rest = collect_kids(nodes, n, k - 1);
    let i = choose|i: int| 0 <= i < (rest + below).len() && (rest + below)[i] == d;
    if i < rest.len() {
        assert(rest[i] == d);
        lemma_kids_sound(nodes, paths, n, k - 1, d)
    } else {
        assert(below[i - rest.len()] == d);
        let m = lemma_collect_sound(nodes, paths, q, d);
        assert(paths[q] == paths[n].push(nodes[n].children@[k - 1].0));
        assert(paths[n] =~= paths[m].subrange(0, paths[n].len() as int));
        m
    }
}

/// Every non-empty prefix of every word of an entry's name finds that entry.
pub proof fn lemma_prefix_containment(
    trie: &FlatTrie,
    names: Seq<Seq<char>>,
    d: usize,
    w: Seq<char>,
    p: Seq<char>,
)
    requires
        trie.indexes(names),
        d < names.len(),
        is_word_of(names[d as int], w),
        is_prefix(p, w),
        p.len() > 0,
    ensures
        find_spec(trie.nodes@, p).contains(d),
{
    let nodes = trie.nodes@;
    let paths = trie.paths@;
    assert(catalog_words(names).contains((w, d)));
    assert(stored_entries(nodes, paths).contains((w, d)));
    assert(holds_entry(nodes, paths, w, d));
    let (m, k) = choose|m: int, k: int|
        0 <= m < nodes.len() && 0 <= k < nodes[m].definitions@.len() && paths[m] == w
            && #[trigger] nodes[m].definitions@[k] == d;
    let n = lemma_prefix_node(nodes, paths, m, p);
    lemma_reach(nodes, paths, n);
    let kids_all = collect_kids(nodes, m, nodes[m].children@.len() as int);
    assert(collect(nodes, m) == nodes[m].definitions@ + kids_all);
    assert(collect(nodes, m)[k] == d);
    lemma_subtree(nodes, paths, n, m, d);
}

/// A term finds only entries with a word that starts with the term.
pub proof fn lemma_no_over_match(trie: &FlatTrie, names: Seq<Seq<char>>, x: Seq<char>, d: usize)
    requires
        trie.indexes(names),
        find_spec(trie.nodes@, x).contains(d),
    ensures
        d < names.len(),
        exists|w: Seq<char>| is_word_of(names[d as int], w) && is_prefix(x, w),
{
    let nodes = trie.nodes@;
    let paths = trie.paths@;
    let n = descend(nodes, 0, x).unwrap();
    lemma_descend_path(nodes, paths, 0, x);
    assert(paths[0] + x =~= x);
    let m = lemma_collect_sound(nodes, paths, n, d);
    let k = choose|k: int| 0 <= k < nodes[m].definitions@.len() && nodes[m].definitions@[k] == d;
    assert(holds_entry(nodes, paths, paths[m], d));
    assert(stored_entries(nodes, paths).contains((paths[m], d)));
    assert(catalog_words(names).contains((paths[m], d)));
}

proof fn lemma_hit_count_concat(a: Seq<usize>, b: Seq<usize>, x: usize)
    ensures
        hit_count(a + b, x) == hit_count(a, x) + hit_count(b, x),
    decreases b.len(),
{
    if b.len() > 0 {
        assert((a + b).drop_last() =~= a + b.drop_last());
        lemma_hit_count_concat(a, b.drop_last(), x);
    } else {
        assert(a + b =~= a);
    }
}

proof fn lemma_hit_count_contains(s: Seq<usize>, x: usize)
    ensures
        hit_count(s, x) >= 1 <==> s.contains(x),
    decreases s.len(),
{
    if s.len() > 0 {
        lemma_hit_count_contains(s.drop_last(), x);
        if s.drop_last().contains(x) {
            let i = choose|i: int| 0 <= i < s.drop_last().len() && s.drop_last()[i] == x;
            assert(s[i] == x);
        }
        if s.contains(x) && s.last() != x {
            let i = choose|i: int| 0 <= i < s.len() && s[i] == x;
            assert(s.drop_last()[i] == x);
        }
    }
}

proof fn lemma_raw_stream_contains(nodes: Seq<TrieNode>, terms: Seq<Seq<char>>, x: usize)
    ensures
        raw_stream(nodes, terms).contains(x) <==> exists|i: int|
            0 <= i < terms.len() && #[trigger] find_spec(nodes, terms[i]).contains(x),
    decreases terms.len(),
{
    if terms.len() > 0 {
        let pre = raw_stream(nodes, terms.drop_last());
        let last = find_spec(nodes, terms.last());
        lemma_raw_stream_contains(nodes, terms.drop_last(), x);
        lemma_hit_count_concat(pre, last, x);
        lemma_hit_count_contains(pre + last, x);
        lemma_hit_count_contains(pre, x);
        lemma_hit_count_contains(last, x);
        if exists|i: int| 0 <= i < terms.len() && #[trigger] find_spec(nodes, terms[i]).contains(x) {
            let i = choose|i: int| 0 <= i < terms.len() && #[trigger] find_spec(nodes, terms[i]).contains(x);
            if i < terms.len() - 1 {
                assert(terms.drop_last()[i] == terms[i]);
            }
        }
        if pre.contains(x) {
            let i = choose|i: int| 0 <= i < terms.drop_last().len() && #[trigger] find_spec(nodes, terms.drop_last()[i]).contains(x);
            assert(terms[i] == terms.drop_last()[i]);
        }
    }
}

/// The results of a query that keeps every touched index are exactly the
/// indices that some term finds, each counted once per occurrence in the
/// combined stream.
pub proof fn lemma_union_completeness(nodes: Seq<TrieNode>, terms: Seq<Seq<char>>, r: Seq<SearchResult>)
    requires
        groups_raw(r, raw_stream(nodes, terms), 0),
    ensures
        forall|x: usize| listed(r, x) <==> exists|i: int|
            0 <= i < terms.len() && #[trigger] find_spec(nodes, terms[i]).contains(x),
        forall|i: int| 0 <= i < r.len() ==> #[trigger] r[i].hits == hit_count(raw_stream(nodes, terms), r[i].def_idx),
{
    let raw = raw_stream(nodes, terms);
    assert forall|x: usize| listed(r, x) <==> exists|i: int|
        0 <= i < terms.len() && #[trigger] find_spec(nodes, terms[i]).contains(x) by {
        lemma_raw_stream_contains(nodes, terms, x);
        lemma_hit_count_contains(raw, x);
        if listed(r, x) {
            let k = choose|k: int| 0 <= k < r.len() && r[k].def_idx == x;
            assert(r[k].hits == hit_count(raw, r[k].def_idx));
        }
    }
}

/// With one term, keeping the indices hit at least once per term and keeping
/// every touched index list the same indices.
pub proof fn lemma_single_term_agreement(r_and: Seq<SearchResult>, r_or: Seq<SearchResult>, raw: Seq<usize>)
    requires
        groups_raw(r_and, raw, 1),
        groups_raw(r_or, raw, 0),
    ensures
        forall|x: usize| listed(r_and, x) <==> listed(r_or, x),
{
    assert forall|x: usize| listed(r_and, x) <==> listed(r_or, x) by {
        if listed(r_and, x) {
            let k = choose|k: int| 0 <= k < r_and.len() && r_and[k].def_idx == x;
            assert(r_and[k].hits == hit_count(raw, r_and[k].def_idx));
        }
        if listed(r_or, x) {
            let k = choose|k: int| 0 <= k < r_or.len() && r_or[k].def_idx == x;
            assert(r_or[k].hits == hit_count(raw, r_or[k].def_idx));
        }
    }
}

/// Two results for the same combined stream and the same threshold list the
/// same indices, with the same hit counts.
pub proof fn lemma_determinism(r1: Seq<SearchResult>, r2: Seq<SearchResult>, raw: Seq<usize>, min: nat)
    requires
        groups_raw(r1, raw, min),
        groups_raw(r2, raw, min),
    ensures
        forall|x: usize| listed(r1, x) <==> listed(r2, x),
        forall|i: int, j: int|
            0 <= i < r1.len() && 0 <= j < r2.len() && r1[i].def_idx == r2[j].def_idx ==> r1[i].hits
                == r2[j].hits,
{
    assert forall|x: usize| listed(r1, x) <==> listed(r2, x) by {
        if listed(r1, x) {
            let k = choose|k: int| 0 <= k < r1.len() && r1[k].def_idx == x;
            assert(r1[k].hits == hit_count(raw, r1[k].def_idx));
        }
        if listed(r2, x) {
            let k = choose|k: int| 0 <= k < r2.len() && r2[k].def_idx == x;
            assert(r2[k].hits == hit_count(raw, r2[k].def_idx));
        }
    }
    assert forall|i: int, j: int|
        0 <= i < r1.len() && 0 <= j < r2.len() && r1[i].def_idx == r2[j].def_idx implies r1[i].hits
            == r2[j].hits by {
        assert(r1[i].hits == hit_count(raw, r1[i].def_idx));
        assert(r2[j].hits == hit_count(raw, r2[j].def_idx));
    }
}

} // verus!
