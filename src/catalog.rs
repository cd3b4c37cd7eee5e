use vstd::prelude::*;
use crate::builder::{Trie, defs_at, key_prefixes, stored_entries, paths_ok};
use crate::category::UnicodeGeneralCategory;
use crate::trie::{FlatTrie, chars_of};

verus! {

/// One entry of the catalog: a code point, its name and its category.
pub struct UnicodeDefinition {
    pub codepoint: u32,
    pub name: String,
    pub general_category: UnicodeGeneralCategory,
}

/// Unicode's White_Space property, which separates the words of a name.
pub open spec fn is_white_space(c: char) -> bool {
    ('\u{9}' <= c && c <= '\u{d}') || c == ' ' || c == '\u{85}' || c == '\u{a0}' || c == '\u{1680}'
        || ('\u{2000}' <= c && c <= '\u{200a}') || c == '\u{2028}' || c == '\u{2029}' || c
        == '\u{202f}' || c == '\u{205f}' || c == '\u{3000}'
}

/// Tests a character for Unicode's White_Space property.
pub fn is_space(c: char) -> (r: bool)
    ensures
        r == is_white_space(c),
{
    ('\u{9}' <= c && c <= '\u{d}') || c == ' ' || c == '\u{85}' || c == '\u{a0}' || c == '\u{1680}'
        || ('\u{2000}' <= c && c <= '\u{200a}') || c == '\u{2028}' || c == '\u{2029}' || c
        == '\u{202f}' || c == '\u{205f}' || c == '\u{3000}'
}

/// `s[i..j]` is a word of `s`: a non-empty, maximal run of characters that
/// are not white space.
pub open spec fn word_at(s: Seq<char>, i: int, j: int) -> bool {
    &&& 0 <= i < j <= s.len()
    &&& i == 0 || is_white_space(s[i - 1])
    &&& j == s.len() || is_white_space(s[j])
    &&& forall|k: int| i <= k < j ==> !is_white_space(#[trigger] s[k])
}

/// `w` is one of the words of `s`.
pub open spec fn is_word_of(s: Seq<char>, w: Seq<char>) -> bool {
    exists|i: int, j: int| word_at(s, i, j) && w == s.subrange(i, j)
}

/// The words of `s` in order, repeated words included: the maximal runs of
/// characters that are not white space.
pub open spec fn name_words(s: Seq<char>) -> Seq<Seq<char>>
    decreases s.len(),
{
    if s.len() == 0 {
        Seq::empty()
    } else {
        let w = name_words(s.drop_last());
        let c = s.last();
        if is_white_space(c) {
            w
        } else if s.len() >= 2 && !is_white_space(s[s.len() - 2]) {
            w.update(w.len() - 1, w.last().push(c))
        } else {
            w.push(seq![c])
        }
    }
}

/// How many of the words `ws` equal `p`.
pub open spec fn count_word(ws: Seq<Seq<char>>, p: Seq<char>) -> nat
    decreases ws.len(),
{
    if ws.len() == 0 {
        0
    } else {
        count_word(ws.drop_last(), p) + if ws.last() == p {
            1nat
        } else {
            0nat
        }
    }
}

/// `k` copies of `d`.
pub open spec fn repeat(d: usize, k: nat) -> Seq<usize> {
    Seq::new(k, |_i: int| d)
}

/// The definitions that a catalog stores under the word `p`: the catalog
/// indices in order, each once for every word of its name equal to `p`.
pub open spec fn catalog_defs(names: Seq<Seq<char>>, p: Seq<char>) -> Seq<usize>
    decreases names.len(),
{
    if names.len() == 0 {
        Seq::empty()
    } else {
        catalog_defs(names.drop_last(), p) + repeat(
            (names.len() - 1) as usize,
            count_word(name_words(names.last()), p),
        )
    }
}

/// Every prefix of every word in `ws`.
pub open spec fn words_prefixes(ws: Seq<Seq<char>>) -> Set<Seq<char>> {
    Set::new(|x: Seq<char>| exists|k: int| 0 <= k < ws.len() && #[trigger] key_prefixes(ws[k]).contains(x))
}

/// The prefixes that the trie of a catalog has nodes for: the empty one and
/// every prefix of every word of every name.
pub open spec fn catalog_prefixes(names: Seq<Seq<char>>) -> Set<Seq<char>>
    decreases names.len(),
{
    if names.len() == 0 {
        set![Seq::<char>::empty()]
    } else {
        catalog_prefixes(names.drop_last()).union(words_prefixes(name_words(names.last())))
    }
}

proof fn lemma_words_prefixes_push(ws: Seq<Seq<char>>, w: Seq<char>)
    ensures
        words_prefixes(ws.push(w)) == words_prefixes(ws).union(key_prefixes(w)),
{
    let nw = ws.push(w);
    assert forall|x: Seq<char>| #[trigger] words_prefixes(nw).contains(x) <==> words_prefixes(ws).contains(x) || key_prefixes(w).contains(x) by {
        if words_prefixes(nw).contains(x) {
            let k = choose|k: int| 0 <= k < nw.len() && #[trigger] key_prefixes(nw[k]).contains(x);
            if k < ws.len() {
                assert(nw[k] == ws[k]);
            }
        }
        if words_prefixes(ws).contains(x) {
            let k = choose|k: int| 0 <= k < ws.len() && #[trigger] key_prefixes(ws[k]).contains(x);
            assert(nw[k] == ws[k]);
        }
        if key_prefixes(w).contains(x) {
            assert(nw[ws.len() as int] == w);
        }
    }
    assert(words_prefixes(nw) =~= words_prefixes(ws).union(key_prefixes(w)));
}

/// The (word, catalog index) pairs of a catalog with the given names.
pub open spec fn catalog_words(names: Seq<Seq<char>>) -> Set<(Seq<char>, usize)> {
    Set::new(|e: (Seq<char>, usize)| e.1 < names.len() && is_word_of(names[e.1 as int], e.0))
}

/// The names of a catalog's entries.
pub open spec fn names_of(defs: Seq<UnicodeDefinition>) -> Seq<Seq<char>> {
    defs.map_values(|d: UnicodeDefinition| d.name@)
}

/// The pairs (w, d) for the words w of `s` that end before position `pos`.
pub open spec fn words_before(s: Seq<char>, pos: int, d: usize) -> Set<(Seq<char>, usize)> {
    Set::new(
        |e: (Seq<char>, usize)|
            e.1 == d && exists|i: int, j: int| word_at(s, i, j) && j < pos && e.0 == s.subrange(i, j),
    )
}

/// A word that ends where a run of non-space characters ends starts where
/// that run starts.
proof fn lemma_word_start(s: Seq<char>, start: int, j: int, i: int)
    requires
        0 <= start <= j <= s.len(),
        start == 0 || is_white_space(s[start - 1]),
        forall|k: int| start <= k < j ==> !is_white_space(#[trigger] s[k]),
        word_at(s, i, j),
    ensures
        i == start,
{
    if i < start {
        assert(!is_white_space(s[start - 1]));
    } else if i > start {
        assert(!is_white_space(s[i - 1]));
    }
}

/// Stores the catalog index `d` under every word of `name`.
pub fn add_words(trie: &mut Trie, name: &str, d: usize)
    requires
        old(trie).wf(),
    ensures
        final(trie).wf(),
        final(trie).entries() == old(trie).entries().union(
            Set::new(|e: (Seq<char>, usize)| e.1 == d && is_word_of(name@, e.0)),
        ),
        forall|p: Seq<char>| #[trigger] final(trie).defs_at(p) == old(trie).defs_at(p) + repeat(d, count_word(name_words(name@), p)),
        final(trie).prefixes() == old(trie).prefixes().union(words_prefixes(name_words(name@))),
{
    let ghost t0 = *trie;
    let ghost mut closed: Seq<Seq<char>> = Seq::empty();
    let ghost s = name@;
    let ghost e0 = trie.entries();
    let chars = chars_of(name);
    let mut cur: Vec<char> = Vec::new();
    let ghost mut start: int = 0;
    let mut pos: usize = 0;
    assert(words_before(s, 0, d) =~= Set::empty());
    assert(s.subrange(0, 0) =~= Seq::<char>::empty());
    assert forall|p: Seq<char>| #[trigger] trie.defs_at(p) == t0.defs_at(p) + repeat(d, count_word(closed, p)) by {
        assert(t0.defs_at(p) + repeat(d, 0) =~= t0.defs_at(p));
    }
    assert(t0.prefixes().union(words_prefixes(closed)) =~= t0.prefixes());
    assert(e0.union(words_before(s, 0, d)) =~= e0);
    while pos < chars.len()
        invariant
            trie.wf(),
            chars@ == s,
            0 <= start <= pos <= s.len(),
            cur@ == s.subrange(start, pos as int),
            start == 0 || is_white_space(s[start - 1]),
            forall|k: int| start <= k < pos ==> !is_white_space(#[trigger] s[k]),
            trie.entries() == e0.union(words_before(s, pos as int, d)),
            name_words(s.subrange(0, pos as int)) == if cur@.len() > 0 {
                closed.push(cur@)
            } else {
                closed
            },
            forall|p: Seq<char>| #[trigger] trie.defs_at(p) == t0.defs_at(p) + repeat(d, count_word(closed, p)),
            trie.prefixes() == t0.prefixes().union(words_prefixes(closed)),
        decreases s.len() - pos,
    {
        let c = chars[pos];
        let ghost before = trie.entries();
        proof {
            let q = s.subrange(0, pos + 1);
            assert(q.drop_last() =~= s.subrange(0, pos as int));
            assert(q.last() == c);
            if cur@.len() > 0 {
                assert(!is_white_space(s[pos - 1]));
                assert(q[q.len() - 2] == s[pos - 1]);
            } else if pos > 0 {
                assert(start == pos);
                assert(q[q.len() - 2] == s[pos - 1]);
            }
        }
        if is_space(c) {
            if cur.len() > 0 {
                let ghost t1 = *trie;
                trie.add(cur.as_slice(), d);
                proof {
                    let nc = closed.push(cur@);
                    assert(nc.drop_last() =~= closed);
                    assert forall|p: Seq<char>| #[trigger] trie.defs_at(p) == t0.defs_at(p) + repeat(d, count_word(nc, p)) by {
                        assert(t1.defs_at(p) == t0.defs_at(p) + repeat(d, count_word(closed, p)));
                        if p == cur@ {
                            assert(t0.defs_at(p) + repeat(d, count_word(nc, p)) =~= (t0.defs_at(p) + repeat(d, count_word(closed, p))).push(d));
                        }
                    }
                    lemma_words_prefixes_push(closed, cur@);
                    assert(trie.prefixes() =~= t0.prefixes().union(words_prefixes(nc)));
                    closed = nc;
                }
                cur = Vec::new();
            }
            proof {
                let w = s.subrange(start, pos as int);
                assert forall|e: (Seq<char>, usize)| #[trigger] words_before(s, pos + 1, d).contains(e) <==> words_before(s, pos as int, d).contains(e) || (start < pos && e == (w, d)) by {
                    if words_before(s, pos + 1, d).contains(e) {
                        let (i, j) = choose|i: int, j: int| word_at(s, i, j) && j < pos + 1 && e.0 == s.subrange(i, j);
                        if j == pos {
                            lemma_word_start(s, start, j, i);
                        }
                    }
                    if start < pos && e == (w, d) {
                        assert(word_at(s, start, pos as int));
                    }
                }
                if start < pos {
                    assert(trie.entries() =~= e0.union(words_before(s, pos + 1, d)));
                } else {
                    assert(words_before(s, pos + 1, d) =~= words_before(s, pos as int, d));
                }
                start = pos + 1;
            }
        } else {
            let ghost cur0 = cur@;
            cur.push(c);
            proof {
                let nw0 = name_words(s.subrange(0, pos as int));
                if cur0.len() > 0 {
                    assert(nw0 == closed.push(cur0));
                    assert(nw0.update(nw0.len() - 1, nw0.last().push(c)) =~= closed.push(cur@));
                } else {
                    assert(cur@ =~= seq![c]);
                }
                assert(s.subrange(start, pos + 1) =~= s.subrange(start, pos as int).push(c));
                assert forall|e: (Seq<char>, usize)| #[trigger] words_before(s, pos + 1, d).contains(e) <==> words_before(s, pos as int, d).contains(e) by {
                    if words_before(s, pos + 1, d).contains(e) {
                        let (i, j) = choose|i: int, j: int| word_at(s, i, j) && j < pos + 1 && e.0 == s.subrange(i, j);
                        assert(j != pos);
                    }
                }
                assert(words_before(s, pos + 1, d) =~= words_before(s, pos as int, d));
            }
        }
        pos = pos + 1;
    }
    let ghost before = trie.entries();
    assert(s.subrange(0, pos as int) =~= s);
    if cur.len() > 0 {
        let ghost t1 = *trie;
        trie.add(cur.as_slice(), d);
        proof {
            let nc = closed.push(cur@);
            assert(nc.drop_last() =~= closed);
            assert forall|p: Seq<char>| #[trigger] trie.defs_at(p) == t0.defs_at(p) + repeat(d, count_word(nc, p)) by {
                assert(t1.defs_at(p) == t0.defs_at(p) + repeat(d, count_word(closed, p)));
                if p == cur@ {
                    assert(t0.defs_at(p) + repeat(d, count_word(nc, p)) =~= (t0.defs_at(p) + repeat(d, count_word(closed, p))).push(d));
                }
            }
            lemma_words_prefixes_push(closed, cur@);
            assert(trie.prefixes() =~= t0.prefixes().union(words_prefixes(nc)));
            closed = nc;
        }
    }
    proof {
        let all = Set::new(|e: (Seq<char>, usize)| e.1 == d && is_word_of(name@, e.0));
        let w = s.subrange(start, pos as int);
        assert forall|e: (Seq<char>, usize)| #[trigger] all.contains(e) <==> words_before(s, pos as int, d).contains(e) || (start < pos && e == (w, d)) by {
            if all.contains(e) {
                let (i, j) = choose|i: int, j: int| word_at(s, i, j) && e.0 == s.subrange(i, j);
                if j == pos {
                    lemma_word_start(s, start, j, i);
                }
            }
            if words_before(s, pos as int, d).contains(e) {
                let (i, j) = choose|i: int, j: int| word_at(s, i, j) && j < pos && e.0 == s.subrange(i, j);
                assert(is_word_of(s, e.0));
            }
            if start < pos && e == (w, d) {
                assert(word_at(s, start, pos as int));
                assert(is_word_of(s, e.0));
            }
        }
        assert(trie.entries() =~= e0.union(all));
    }
}

impl FlatTrie {
    /// The trie stores exactly the words of the catalog with these names,
    /// each under the index of its entry.
    pub open spec fn indexes(&self, names: Seq<Seq<char>>) -> bool {
        &&& self.wf()
        &&& paths_ok(self.nodes@, self.paths@)
        &&& stored_entries(self.nodes@, self.paths@) == catalog_words(names)
        &&& forall|p: Seq<char>| #[trigger] defs_at(self.nodes@, self.paths@, p) == catalog_defs(names, p)
        &&& self.paths@.to_set() == catalog_prefixes(names)
    }
}

/// Extending a catalog by its next name adds that entry's index once per
/// word of the name.
proof fn lemma_catalog_defs_step(names: Seq<Seq<char>>, d: int)
    requires
        0 <= d < names.len(),
        d < usize::MAX,
    ensures
        forall|p: Seq<char>| #[trigger] catalog_defs(names.subrange(0, d + 1), p) == catalog_defs(names.subrange(0, d), p)
            + repeat(d as usize, count_word(name_words(names[d]), p)),
{
    let post = names.subrange(0, d + 1);
    assert(post.drop_last() =~= names.subrange(0, d));
    assert(post.last() == names[d]);
}

/// Builds the word trie of a catalog: each entry's index is stored under
/// every word of its name.
pub fn index_catalog(defs: &[UnicodeDefinition]) -> (r: FlatTrie)
    ensures
        r.indexes(names_of(defs@)),
{
    let mut trie = Trie::new();
    let mut d: usize = 0;
    let ghost names = names_of(defs@);
    assert(catalog_words(names.subrange(0, 0)) =~= Set::empty());
    assert(names.subrange(0, 0).len() == 0);
    assert(trie.prefixes() == catalog_prefixes(names.subrange(0, 0)));
    while d < defs.len()
        invariant
            trie.wf(),
            d <= defs@.len(),
            names == names_of(defs@),
            trie.entries() == catalog_words(names.subrange(0, d as int)),
            forall|p: Seq<char>| #[trigger] trie.defs_at(p) == catalog_defs(names.subrange(0, d as int), p),
            trie.prefixes() == catalog_prefixes(names.subrange(0, d as int)),
        decreases defs@.len() - d,
    {
        add_words(&mut trie, defs[d].name.as_str(), d);
        proof {
            lemma_catalog_defs_step(names, d as int);
            let post_names = names.subrange(0, d + 1);
            assert(post_names.drop_last() =~= names.subrange(0, d as int));
            assert(post_names.last() == defs@[d as int].name@);
            let pre = names.subrange(0, d as int);
            let post = names.subrange(0, d + 1);
            assert(post[d as int] == defs@[d as int].name@);
            assert forall|e: (Seq<char>, usize)| #[trigger] catalog_words(post).contains(e) <==> catalog_words(pre).contains(e) || (e.1 == d && is_word_of(defs@[d as int].name@, e.0)) by {
                if e.1 < d {
                    assert(post[e.1 as int] == pre[e.1 as int]);
                }
            }
            assert(trie.entries() =~= catalog_words(post));
        }
        d = d + 1;
    }
    assert(names.subrange(0, d as int) =~= names);
    trie.flatten()
}

} // verus!
