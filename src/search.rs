use vstd::prelude::*;
use crate::catalog::UnicodeDefinition;
use crate::trie::{FlatTrie, find, find_spec};

verus! {

/// One catalog entry that a query touched, with the number of times it was
/// touched across all the query's terms.
#[derive(Clone, Copy, Debug)]
pub struct SearchResult {
    pub def_idx: usize,
    pub hits: usize,
}

impl SearchResult {
    /// The catalog entry that this result stands for.
    pub fn definition<'a>(&self, catalog: &'a [UnicodeDefinition]) -> (r: &'a UnicodeDefinition)
        requires
            self.def_idx < catalog@.len(),
        ensures
            *r == catalog@[self.def_idx as int],
    {
        &catalog[self.def_idx]
    }
}

/// How many times `x` occurs in `s`.
pub open spec fn hit_count(s: Seq<usize>, x: usize) -> nat
    decreases s.len(),
{
    if s.len() == 0 {
        0
    } else {
        hit_count(s.drop_last(), x) + if s.last() == x {
            1nat
        } else {
            0nat
        }
    }
}

/// The views of a list of query terms.
pub open spec fn term_views(terms: Seq<String>) -> Seq<Seq<char>> {
    terms.map_values(|t: String| t@)
}

/// The combined stream of catalog indices: the matches of each term in turn.
pub open spec fn raw_stream(nodes: Seq<crate::trie::TrieNode>, terms: Seq<Seq<char>>) -> Seq<usize>
    decreases terms.len(),
{
    if terms.len() == 0 {
        Seq::empty()
    } else {
        raw_stream(nodes, terms.drop_last()) + find_spec(nodes, terms.last())
    }
}

/// No catalog index occurs twice among the results.
pub open spec fn distinct_ids(r: Seq<SearchResult>) -> bool {
    forall|i: int, j: int| 0 <= i < j < r.len() ==> r[i].def_idx != r[j].def_idx
}

/// Each result carries the number of times its index occurs in `raw`.
pub open spec fn counts_match(r: Seq<SearchResult>, raw: Seq<usize>) -> bool {
    forall|i: int| 0 <= i < r.len() ==> #[trigger] r[i].hits == hit_count(raw, r[i].def_idx)
}

/// The index `x` stands among the results.
pub open spec fn listed(r: Seq<SearchResult>, x: usize) -> bool {
    exists|i: int| 0 <= i < r.len() && r[i].def_idx == x
}

/// `x` occurs in `s` before any occurrence of `y`.
pub open spec fn occurs_before(s: Seq<usize>, x: usize, y: usize) -> bool {
    exists|p: int| 0 <= p < s.len() && s[p] == x && forall|q: int| 0 <= q <= p ==> s[q] != y
}

/// The results come in the order in which their indices first occur in `raw`.
pub open spec fn in_first_seen_order(r: Seq<SearchResult>, raw: Seq<usize>) -> bool {
    forall|i: int, j: int| 0 <= i < j < r.len() ==> occurs_before(raw, #[trigger] r[i].def_idx, #[trigger] r[j].def_idx)
}

/// Results with equal hit counts come in the order in which their indices
/// first occur in `raw`.
pub open spec fn ties_in_first_seen_order(r: Seq<SearchResult>, raw: Seq<usize>) -> bool {
    forall|i: int, j: int|
        0 <= i < j < r.len() && r[i].hits == r[j].hits ==> occurs_before(raw, #[trigger] r[i].def_idx, #[trigger] r[j].def_idx)
}

/// The results are sorted by hit count, lowest first.
pub open spec fn sorted_by_hits(r: Seq<SearchResult>) -> bool {
    forall|i: int, j: int| 0 <= i < j < r.len() ==> r[i].hits <= r[j].hits
}

/// The grouping of `raw` that keeps the indices hit at least `min` times:
/// one result per such index, with its exact count, and nothing else.
pub open spec fn groups_raw(r: Seq<SearchResult>, raw: Seq<usize>, min: nat) -> bool {
    &&& distinct_ids(r)
    &&& counts_match(r, raw)
    &&& forall|i: int| 0 <= i < r.len() ==> #[trigger] r[i].hits >= 1 && r[i].hits >= min
    &&& forall|x: usize| hit_count(raw, x) >= 1 && hit_count(raw, x) >= min ==> listed(r, x)
}

proof fn lemma_hit_count_le(s: Seq<usize>, x: usize)
    ensures
        hit_count(s, x) <= s.len(),
    decreases s.len(),
{
    if s.len() > 0 {
        lemma_hit_count_le(s.drop_last(), x);
    }
}

proof fn lemma_count_pos(s: Seq<usize>, x: usize)
    requires
        hit_count(s, x) >= 1,
    ensures
        exists|p: int| 0 <= p < s.len() && s[p] == x,
    decreases s.len(),
{
    if s.last() != x {
        lemma_count_pos(s.drop_last(), x);
        let p = choose|p: int| 0 <= p < s.drop_last().len() && s.drop_last()[p] == x;
        assert(s[p] == x);
    } else {
        assert(s[s.len() - 1] == x);
    }
}

proof fn lemma_count_zero(s: Seq<usize>, x: usize, q: int)
    requires
        hit_count(s, x) == 0,
        0 <= q < s.len(),
    ensures
        s[q] != x,
    decreases s.len(),
{
    if q < s.len() - 1 {
        lemma_count_zero(s.drop_last(), x, q);
    }
}

/// Runs every term through the trie and concatenates what each one matched.
fn gather(trie: &FlatTrie, terms: &[String]) -> (raw: Vec<usize>)
    requires
        trie.wf(),
    ensures
        raw@ == raw_stream(trie.nodes@, term_views(terms@)),
{
    let mut raw: Vec<usize> = Vec::new();
    let mut i: usize = 0;
    while i < terms.len()
        invariant
            trie.wf(),
            i <= terms@.len(),
            raw@ == raw_stream(trie.nodes@, term_views(terms@.subrange(0, i as int))),
        decreases terms@.len() - i,
    {
        proof {
            let pre = term_views(terms@.subrange(0, i as int));
            let post = term_views(terms@.subrange(0, i + 1));
            assert(post.drop_last() =~= pre);
            assert(post.last() == terms@[i as int]@);
        }
        find(trie, terms[i].as_str(), &mut raw);
        i = i + 1;
    }
    assert(terms@.subrange(0, i as int) =~= terms@);
    raw
}

/// Groups a stream of catalog indices by index, counting the occurrences of
/// each; indices appear in the order of their first occurrence.
fn tally(raw: &Vec<usize>) -> (r: Vec<SearchResult>)
    ensures
        groups_raw(r@, raw@, 0),
        in_first_seen_order(r@, raw@),
{
    let mut r: Vec<SearchResult> = Vec::new();
    let mut i: usize = 0;
    while i < raw.len()
        invariant
            i <= raw@.len(),
            groups_raw(r@, raw@.subrange(0, i as int), 0),
            in_first_seen_order(r@, raw@.subrange(0, i as int)),
        decreases raw@.len() - i,
    {
        let x = raw[i];
        let ghost pre = raw@.subrange(0, i as int);
        let ghost post = raw@.subrange(0, i + 1);
        proof {
            assert(post.drop_last() =~= pre);
            assert(post.last() == x);
            lemma_hit_count_le(pre, x);
        }
        let ghost r0 = r@;
        let mut j: usize = 0;
        while j < r.len() && r[j].def_idx != x
            invariant
                j <= r@.len(),
                r@ == r0,
                forall|k: int| 0 <= k < j ==> r@[k].def_idx != x,
            decreases r@.len() - j,
        {
            j = j + 1;
        }
        let found = j < r.len();
        if found {
            let h = r[j].hits;
            assert(h == hit_count(pre, x));
            r.set(j, SearchResult { def_idx: x, hits: h + 1 });
        } else {
            r.push(SearchResult { def_idx: x, hits: 1 });
        }
        proof {
            let rv = r@;
            assert(rv.len() >= r0.len());
            assert forall|a: int, b: int| 0 <= a < b < rv.len() implies occurs_before(post, #[trigger] rv[a].def_idx, #[trigger] rv[b].def_idx) by {
                assert(rv[a].def_idx == r0[a].def_idx);
                if b < r0.len() {
                    assert(rv[b].def_idx == r0[b].def_idx);
                    assert(occurs_before(pre, r0[a].def_idx, r0[b].def_idx));
                    let p = choose|p: int| 0 <= p < pre.len() && pre[p] == r0[a].def_idx && forall|q: int| 0 <= q <= p ==> pre[q] != r0[b].def_idx;
                    assert(post[p] == pre[p]);
                    assert forall|q: int| 0 <= q <= p implies post[q] != rv[b].def_idx by {
                        assert(post[q] == pre[q]);
                    }
                } else {
                    assert(!found);
                    assert(rv[b].def_idx == x);
                    assert(r0[a].hits == hit_count(pre, r0[a].def_idx));
                    lemma_count_pos(pre, r0[a].def_idx);
                    let p = choose|p: int| 0 <= p < pre.len() && pre[p] == r0[a].def_idx;
                    if hit_count(pre, x) >= 1 {
                        assert(listed(r0, x));
                    }
                    assert forall|q: int| 0 <= q <= p implies post[q] != x by {
                        assert(post[q] == pre[q]);
                        lemma_count_zero(pre, x, q);
                    }
                    assert(post[p] == pre[p]);
                }
            }
            assert forall|k: int| 0 <= k < r0.len() implies rv[k].def_idx == #[trigger] r0[k].def_idx by {}
            assert forall|k: int| 0 <= k < rv.len() implies #[trigger] rv[k].hits == hit_count(
                post,
                rv[k].def_idx,
            ) by {
                assert(hit_count(post, rv[k].def_idx) == hit_count(pre, rv[k].def_idx) + if rv[k].def_idx == x {
                    1nat
                } else {
                    0nat
                });
                if k < r0.len() {
                    assert(r0[k].hits == hit_count(pre, r0[k].def_idx));
                    if k != j {
                        assert(rv[k] == r0[k]);
                        if found {
                            assert(r0[j as int].def_idx == x);
                        }
                    }
                } else {
                    if hit_count(pre, x) >= 1 {
                        assert(listed(r0, x));
                    }
                }
            }
            assert forall|y: usize| hit_count(post, y) >= 1 && hit_count(post, y) >= 0 implies listed(
                rv,
                y,
            ) by {
                if y == x {
                    if found {
                        assert(rv[j as int].def_idx == x);
                    } else {
                        assert(rv[rv.len() - 1].def_idx == x);
                    }
                } else {
                    assert(hit_count(post, y) == hit_count(pre, y));
                    assert(listed(r0, y));
                    let k = choose|k: int| 0 <= k < r0.len() && r0[k].def_idx == y;
                    assert(rv[k].def_idx == y);
                }
            }
        }
        i = i + 1;
    }
    assert(raw@.subrange(0, i as int) =~= raw@);
    r
}

/// Keeps the results hit at least `min` times, in their order.
fn keep_at_least(r: Vec<SearchResult>, min: usize, raw: Ghost<Seq<usize>>) -> (out: Vec<SearchResult>)
    requires
        groups_raw(r@, raw@, 0),
        in_first_seen_order(r@, raw@),
    ensures
        groups_raw(out@, raw@, min as nat),
        in_first_seen_order(out@, raw@),
{
    let mut out: Vec<SearchResult> = Vec::new();
    let ghost mut from: Seq<int> = Seq::empty();
    let mut i: usize = 0;
    while i < r.len()
        invariant
            i <= r@.len(),
            groups_raw(r@, raw@, 0),
            in_first_seen_order(r@, raw@),
            from.len() == out@.len(),
            forall|a: int| 0 <= a < out@.len() ==> 0 <= #[trigger] from[a] < i && r@[from[a]] == out@[a],
            forall|a: int, b: int| 0 <= a < b < out@.len() ==> #[trigger] from[a] < #[trigger] from[b],
            forall|a: int| 0 <= a < out@.len() ==> #[trigger] out@[a].hits >= min,
            forall|k: int| 0 <= k < i && #[trigger] r@[k].hits >= min ==> listed(out@, r@[k].def_idx),
        decreases r@.len() - i,
    {
        let e = r[i];
        if e.hits >= min {
            let ghost o0 = out@;
            out.push(e);
            proof {
                from = from.push(i as int);
                assert forall|k: int| 0 <= k < i + 1 && #[trigger] r@[k].hits >= min implies listed(out@, r@[k].def_idx) by {
                    if k < i {
                        let a = choose|a: int| 0 <= a < o0.len() && o0[a].def_idx == r@[k].def_idx;
                        assert(out@[a] == o0[a]);
                    } else {
                        assert(out@[o0.len() as int] == e);
                    }
                }
            }
        }
        i = i + 1;
    }
    proof {
        assert forall|a: int, b: int| 0 <= a < b < out@.len() implies out@[a].def_idx != out@[b].def_idx by {
            assert(from[a] < from[b]);
        }
        assert forall|a: int, b: int| 0 <= a < b < out@.len() implies occurs_before(raw@, #[trigger] out@[a].def_idx, #[trigger] out@[b].def_idx) by {
            assert(from[a] < from[b]);
            assert(occurs_before(raw@, r@[from[a]].def_idx, r@[from[b]].def_idx));
        }
        assert forall|a: int| 0 <= a < out@.len() implies #[trigger] out@[a].hits == hit_count(raw@, out@[a].def_idx) && out@[a].hits >= 1 by {
            assert(r@[from[a]].hits == hit_count(raw@, r@[from[a]].def_idx));
        }
        assert forall|x: usize| hit_count(raw@, x) >= 1 && hit_count(raw@, x) >= min implies listed(out@, x) by {
            assert(listed(r@, x));
            let k = choose|k: int| 0 <= k < r@.len() && r@[k].def_idx == x;
            assert(r@[k].hits == hit_count(raw@, r@[k].def_idx));
        }
    }
    out
}

/// Orders the results by hit count, lowest first.
fn sort_by_hits(r: Vec<SearchResult>, raw: Ghost<Seq<usize>>) -> (out: Vec<SearchResult>)
    requires
        distinct_ids(r@),
        in_first_seen_order(r@, raw@),
    ensures
        distinct_ids(out@),
        sorted_by_hits(out@),
        ties_in_first_seen_order(out@, raw@),
        forall|e: SearchResult| out@.contains(e) <==> r@.contains(e),
{
    let mut out: Vec<SearchResult> = Vec::new();
    let mut i: usize = 0;
    while i < r.len()
        invariant
            i <= r@.len(),
            distinct_ids(r@),
            in_first_seen_order(r@, raw@),
            distinct_ids(out@),
            sorted_by_hits(out@),
            ties_in_first_seen_order(out@, raw@),
            forall|e: SearchResult| out@.contains(e) <==> r@.subrange(0, i as int).contains(e),
        decreases r@.len() - i,
    {
        let e = r[i];
        let mut p: usize = 0;
        while p < out.len() && out[p].hits <= e.hits
            invariant
                p <= out@.len(),
                forall|a: int| 0 <= a < p ==> #[trigger] out@[a].hits <= e.hits,
            decreases out@.len() - p,
        {
            p = p + 1;
        }
        let ghost o0 = out@;
        proof {
            assert forall|a: int| p <= a < o0.len() implies #[trigger] o0[a].hits > e.hits by {
                assert(o0[p as int].hits <= o0[a].hits);
            }
            assert forall|a: int| 0 <= a < o0.len() implies o0[a].def_idx != e.def_idx by {
                assert(o0.contains(o0[a]));
                assert(r@.subrange(0, i as int).contains(o0[a]));
                let k = choose|k: int| 0 <= k < i && r@.subrange(0, i as int)[k] == o0[a];
                assert(r@[k] == o0[a]);
            }
        }
        out.insert(p, e);
        proof {
            let pre = r@.subrange(0, i as int);
            let post = r@.subrange(0, i + 1);
            assert(post =~= pre.push(e));
            assert(out@ =~= o0.subrange(0, p as int).push(e) + o0.subrange(p as int, o0.len() as int));
            assert forall|a: int, b: int| 0 <= a < b < out@.len() implies out@[a].def_idx != out@[b].def_idx by {
                if a < p && b > p {
                    assert(out@[b] == o0[b - 1]);
                } else if b > p && a > p {
                    assert(out@[b] == o0[b - 1]);
                    assert(out@[a] == o0[a - 1]);
                }
            }
            assert forall|a: int, b: int| 0 <= a < b < out@.len() implies out@[a].hits <= out@[b].hits by {
                if a < p && b > p {
                    assert(out@[b] == o0[b - 1]);
                } else if b > p && a > p {
                    assert(out@[b] == o0[b - 1]);
                    assert(out@[a] == o0[a - 1]);
                } else if a == p {
                    assert(out@[b] == o0[b - 1]);
                }
            }
            assert forall|a: int, b: int| 0 <= a < b < out@.len() && out@[a].hits == out@[b].hits implies occurs_before(raw@, #[trigger] out@[a].def_idx, #[trigger] out@[b].def_idx) by {
                if a < p && b > p {
                    assert(out@[a] == o0[a]);
                    assert(out@[b] == o0[b - 1]);
                } else if b > p && a > p {
                    assert(out@[b] == o0[b - 1]);
                    assert(out@[a] == o0[a - 1]);
                } else if a == p {
                    assert(out@[b] == o0[b - 1]);
                } else if b == p {
                    assert(out@[a] == o0[a]);
                    assert(o0.contains(o0[a]));
                    assert(pre.contains(o0[a]));
                    let k = choose|k: int| 0 <= k < pre.len() && pre[k] == o0[a];
                    assert(r@[k] == o0[a]);
                    assert(occurs_before(raw@, r@[k].def_idx, r@[i as int].def_idx));
                } else {
                    assert(out@[a] == o0[a]);
                    assert(out@[b] == o0[b]);
                }
            }
            assert forall|x: SearchResult| out@.contains(x) <==> post.contains(x) by {
                if out@.contains(x) {
                    let a = choose|a: int| 0 <= a < out@.len() && out@[a] == x;
                    if a == p {
                        assert(post[i as int] == x);
                    } else {
                        if a < p {
                            assert(out@[a] == o0[a]);
                        } else {
                            assert(out@[a] == o0[a - 1]);
                        }
                        assert(o0.contains(x));
                        assert(pre.contains(x));
                        let k = choose|k: int| 0 <= k < pre.len() && pre[k] == x;
                        assert(post[k] == x);
                    }
                }
                if post.contains(x) {
                    let k = choose|k: int| 0 <= k < post.len() && post[k] == x;
                    if k < i {
                        assert(pre.contains(x));
                        assert(o0.contains(x));
                        let a = choose|a: int| 0 <= a < o0.len() && o0[a] == x;
                        if a < p {
                            assert(out@[a] == x);
                        } else {
                            assert(out@[a + 1] == x);
                        }
                    } else {
                        assert(out@[p as int] == x);
                    }
                }
            }
        }
        i = i + 1;
    }
    assert(r@.subrange(0, i as int) =~= r@);
    out
}

/// Looks up every term and returns each catalog index that any of them
/// matched, with its number of hits, ordered by hit count, lowest first;
/// equal counts keep the order of first occurrence.
pub fn search_or(trie: &FlatTrie, terms: &[String]) -> (r: Vec<SearchResult>)
    requires
        trie.wf(),
    ensures
        groups_raw(r@, raw_stream(trie.nodes@, term_views(terms@)), 0),
        sorted_by_hits(r@),
        ties_in_first_seen_order(r@, raw_stream(trie.nodes@, term_views(terms@))),
{
    let raw = gather(trie, terms);
    let grouped = tally(&raw);
    let out = sort_by_hits(grouped, Ghost(raw@));
    proof {
        let rs = raw@;
        assert forall|a: int| 0 <= a < out@.len() implies #[trigger] out@[a].hits == hit_count(rs, out@[a].def_idx) && out@[a].hits >= 1 by {
            assert(out@.contains(out@[a]));
            let k = choose|k: int| 0 <= k < grouped@.len() && grouped@[k] == out@[a];
            assert(grouped@[k].hits == hit_count(rs, grouped@[k].def_idx));
        }
        assert forall|x: usize| hit_count(rs, x) >= 1 && hit_count(rs, x) >= 0 implies listed(out@, x) by {
            assert(listed(grouped@, x));
            let k = choose|k: int| 0 <= k < grouped@.len() && grouped@[k].def_idx == x;
            assert(grouped@.contains(grouped@[k]));
            let a = choose|a: int| 0 <= a < out@.len() && out@[a] == grouped@[k];
        }
    }
    out
}

/// Looks up every term and returns each catalog index hit at least as many
/// times as there are terms, with its number of hits, in the order of first
/// occurrence.
pub fn search_and(trie: &FlatTrie, terms: &[String]) -> (r: Vec<SearchResult>)
    requires
        trie.wf(),
    ensures
        groups_raw(r@, raw_stream(trie.nodes@, term_views(terms@)), terms@.len()),
        in_first_seen_order(r@, raw_stream(trie.nodes@, term_views(terms@))),
{
    let raw = gather(trie, terms);
    let grouped = tally(&raw);
    keep_at_least(grouped, terms.len(), Ghost(raw@))
}

} // verus!
