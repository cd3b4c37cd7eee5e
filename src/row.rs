use vstd::prelude::*;
use crate::builder::Trie;
use crate::catalog::{UnicodeDefinition, add_words, catalog_defs, catalog_prefixes, catalog_words, names_of};
use crate::category::{UnicodeGeneralCategory, category_tag, is_category_tag};
use crate::trie::chars_of;

verus! {

broadcast use vstd::string::to_string_from_display_ensures_for_str;

/// Why a row of the character database could not be read.
#[derive(Debug, Clone, Copy, PartialEq, Eq, Structural)]
pub enum RowError {
    /// The row has fewer than three `;`-separated fields.
    MissingField,
    /// The first field is not a hexadecimal number that fits in 32 bits.
    BadCodepoint,
    /// The third field is not a known category tag.
    UnknownCategory,
}

/// The positions of the `;` separators of `s`, in order.
pub open spec fn semicolons(s: Seq<char>) -> Seq<int>
    decreases s.len(),
{
    if s.len() == 0 {
        Seq::empty()
    } else if s.last() == ';' {
        semicolons(s.drop_last()).push(s.len() - 1)
    } else {
        semicolons(s.drop_last())
    }
}

/// Field `k` of a row whose fields are separated by `;`.
pub open spec fn field(s: Seq<char>, k: int) -> Seq<char> {
    let sc = semicolons(s);
    let b = if k == 0 {
        0
    } else {
        sc[k - 1] + 1
    };
    let e = if k < sc.len() {
        sc[k]
    } else {
        s.len() as int
    };
    s.subrange(b, e)
}

pub open spec fn is_hex_digit(c: char) -> bool {
    ('0' <= c && c <= '9') || ('a' <= c && c <= 'f') || ('A' <= c && c <= 'F')
}

pub open spec fn hex_digit_value(c: char) -> nat {
    if '0' <= c && c <= '9' {
        (c as nat - '0' as nat) as nat
    } else if 'a' <= c && c <= 'f' {
        (c as nat - 'a' as nat + 10) as nat
    } else {
        (c as nat - 'A' as nat + 10) as nat
    }
}

/// The number that a string of hexadecimal digits writes, most significant
/// digit first.
pub open spec fn hex_number(s: Seq<char>) -> nat
    decreases s.len(),
{
    if s.len() == 0 {
        0
    } else {
        16 * hex_number(s.drop_last()) + hex_digit_value(s.last())
    }
}

/// The digits of a number written with an optional leading `+`.
pub open spec fn unsigned_digits(s: Seq<char>) -> Seq<char> {
    if s.len() > 0 && s[0] == '+' {
        s.drop_first()
    } else {
        s
    }
}

/// The 32-bit value that `s` writes in base 16, if it writes one: an
/// optional `+`, then at least one hexadecimal digit.
pub open spec fn hex_value(s: Seq<char>) -> Option<u32> {
    let d = unsigned_digits(s);
    if d.len() > 0 && (forall|i: int| 0 <= i < d.len() ==> is_hex_digit(#[trigger] d[i]))
        && hex_number(d) <= u32::MAX {
        Some(hex_number(d) as u32)
    } else {
        None
    }
}

/// What is wrong with a row, if anything: the checks run field by field.
pub open spec fn row_error(s: Seq<char>) -> Option<RowError> {
    if semicolons(s).len() < 2 {
        Some(RowError::MissingField)
    } else if hex_value(field(s, 0)) is None {
        Some(RowError::BadCodepoint)
    } else if !is_category_tag(field(s, 2)) {
        Some(RowError::UnknownCategory)
    } else {
        None
    }
}

/// `def` holds what the row `s` says: its code point, name and category.
pub open spec fn row_matches(s: Seq<char>, def: UnicodeDefinition) -> bool {
    &&& hex_value(field(s, 0)) == Some(def.codepoint)
    &&& def.name@ == field(s, 1)
    &&& category_tag(def.general_category) == field(s, 2)
}

proof fn lemma_hex_prefix_le(d: Seq<char>, i: int)
    requires
        0 <= i <= d.len(),
    ensures
        hex_number(d.subrange(0, i)) <= hex_number(d),
    decreases d.len() - i,
{
    if i < d.len() {
        lemma_hex_prefix_le(d, i + 1);
        let p = d.subrange(0, i + 1);
        assert(p.drop_last() =~= d.subrange(0, i));
    } else {
        assert(d.subrange(0, i) =~= d);
    }
}

/// Reads `s[b..e]` as a hexadecimal number.
fn parse_hex(s: &Vec<char>, b: usize, e: usize) -> (r: Option<u32>)
    requires
        b <= e <= s@.len(),
    ensures
        r == hex_value(s@.subrange(b as int, e as int)),
{
    let ghost t = s@.subrange(b as int, e as int);
    let mut start = b;
    if b < e && s[b] == '+' {
        start = b + 1;
    }
    let ghost d = s@.subrange(start as int, e as int);
    assert(d =~= unsigned_digits(t));
    if start == e {
        return None;
    }
    let mut acc: u64 = 0;
    let mut i: usize = start;
    while i < e
        invariant
            b <= start <= i <= e <= s@.len(),
            d == s@.subrange(start as int, e as int),
            d == unsigned_digits(t),
            t == s@.subrange(b as int, e as int),
            acc == hex_number(d.subrange(0, i - start)),
            acc <= u32::MAX,
            forall|k: int| 0 <= k < i - start ==> is_hex_digit(#[trigger] d[k]),
        decreases e - i,
    {
        let c = s[i];
        let v: u64;
        if '0' <= c && c <= '9' {
            v = (c as u64) - ('0' as u64);
        } else if 'a' <= c && c <= 'f' {
            v = (c as u64) - ('a' as u64) + 10;
        } else if 'A' <= c && c <= 'F' {
            v = (c as u64) - ('A' as u64) + 10;
        } else {
            proof {
                let k = i - start;
                assert(d[k] == c);
                assert(!is_hex_digit(d[k]));
                assert(!(forall|j: int| 0 <= j < d.len() ==> is_hex_digit(#[trigger] d[j])));
                assert(hex_value(t) is None);
            }
            return None;
        }
        let ghost p = d.subrange(0, i - start + 1);
        assert(p.drop_last() =~= d.subrange(0, i - start));
        assert(p.last() == c);
        assert(v == hex_digit_value(c));
        acc = acc * 16 + v;
        assert(acc == hex_number(p));
        if acc > 0xffff_ffff {
            proof {
                lemma_hex_prefix_le(d, i - start + 1);
                assert(hex_number(d) > u32::MAX);
                assert(hex_value(t) is None);
            }
            return None;
        }
        i = i + 1;
    }
    assert(d.subrange(0, i - start) =~= d);
    Some(acc as u32)
}

/// Reads one row of the character database: a hexadecimal code point, a
/// name and a category tag, separated by `;`; later fields are ignored.
pub fn parse_row(line: &str) -> (r: Result<UnicodeDefinition, RowError>)
    ensures
        match r {
            Ok(def) => row_error(line@) is None && row_matches(line@, def),
            Err(e) => row_error(line@) == Some(e),
        },
{
    let ghost s = line@;
    let chars = chars_of(line);
    let mut semis: Vec<usize> = Vec::new();
    let mut pos: usize = 0;
    while pos < chars.len()
        invariant
            chars@ == s,
            pos <= s.len(),
            semis@.map_values(|p: usize| p as int) == semicolons(s.subrange(0, pos as int)),
            forall|k: int| 0 <= k < semis@.len() ==> #[trigger] semis@[k] < pos,
        decreases s.len() - pos,
    {
        proof {
            let q = s.subrange(0, pos + 1);
            assert(q.drop_last() =~= s.subrange(0, pos as int));
            assert(q.last() == s[pos as int]);
        }
        if chars[pos] == ';' {
            semis.push(pos);
            assert(semis@.map_values(|p: usize| p as int) =~= semicolons(s.subrange(0, pos as int)).push(pos as int));
        }
        pos = pos + 1;
    }
    assert(s.subrange(0, pos as int) =~= s);
    let ghost sc = semicolons(s);
    assert(semis@.len() == sc.len());
    if semis.len() < 2 {
        return Err(RowError::MissingField);
    }
    assert(semis@[0] as int == sc[0]);
    assert(semis@[1] as int == sc[1]);
    let e2 = if semis.len() > 2 {
        assert(semis@[2] as int == sc[2]);
        semis[2]
    } else {
        chars.len()
    };
    proof {
        lemma_semicolons_ordered(s);
    }
    let codepoint = match parse_hex(&chars, 0, semis[0]) {
        Some(v) => v,
        None => {
            return Err(RowError::BadCodepoint);
        },
    };
    let tag = line.substring_char(semis[1] + 1, e2);
    let general_category = match UnicodeGeneralCategory::parse(tag) {
        Ok(c) => c,
        Err(_) => {
            return Err(RowError::UnknownCategory);
        },
    };
    let name = line.substring_char(semis[0] + 1, semis[1]).to_string();
    Ok(UnicodeDefinition { codepoint, name, general_category })
}

proof fn lemma_semicolons_ordered(s: Seq<char>)
    ensures
        forall|k: int| 0 <= k < semicolons(s).len() ==> 0 <= #[trigger] semicolons(s)[k] < s.len(),
        forall|i: int, j: int| 0 <= i < j < semicolons(s).len() ==> semicolons(s)[i] < semicolons(s)[j],
    decreases s.len(),
{
    if s.len() > 0 {
        let pre = s.drop_last();
        lemma_semicolons_ordered(pre);
        if s.last() == ';' {
            assert(semicolons(s) == semicolons(pre).push(s.len() - 1));
        } else {
            assert(semicolons(s) == semicolons(pre));
        }
    }
}

/// Reads the rows of the character database in order, giving entry `i` the
/// catalog index `i`, and stores every entry under each word of its name.
/// The first row that cannot be read stops the build with its error.
pub fn build_trie(lines: &[String]) -> (r: Result<(Trie, Vec<UnicodeDefinition>), RowError>)
    ensures
        match r {
            Ok((trie, defs)) => {
                &&& forall|i: int| 0 <= i < lines@.len() ==> row_error(#[trigger] lines@[i]@) is None
                &&& defs@.len() == lines@.len()
                &&& forall|i: int| 0 <= i < lines@.len() ==> row_matches(lines@[i]@, #[trigger] defs@[i])
                &&& trie.wf()
                &&& trie.entries() == catalog_words(names_of(defs@))
                &&& forall|p: Seq<char>| #[trigger] trie.defs_at(p) == catalog_defs(names_of(defs@), p)
                &&& trie.prefixes() == catalog_prefixes(names_of(defs@))
            },
            Err(e) => exists|k: int|
                0 <= k < lines@.len() && row_error(#[trigger] lines@[k]@) == Some(e) && forall|j: int|
                    0 <= j < k ==> row_error(#[trigger] lines@[j]@) is None,
        },
{
    let mut trie = Trie::new();
    let mut defs: Vec<UnicodeDefinition> = Vec::new();
    let mut i: usize = 0;
    assert(catalog_words(names_of(defs@)) =~= Set::empty());
    assert(names_of(defs@).len() == 0);
    while i < lines.len()
        invariant
            i <= lines@.len(),
            defs@.len() == i,
            forall|j: int| 0 <= j < i ==> row_error(#[trigger] lines@[j]@) is None,
            forall|j: int| 0 <= j < i ==> row_matches(lines@[j]@, #[trigger] defs@[j]),
            trie.wf(),
            trie.entries() == catalog_words(names_of(defs@)),
            forall|p: Seq<char>| #[trigger] trie.defs_at(p) == catalog_defs(names_of(defs@), p),
            trie.prefixes() == catalog_prefixes(names_of(defs@)),
        decreases lines@.len() - i,
    {
        let def = match parse_row(lines[i].as_str()) {
            Ok(def) => def,
            Err(e) => {
                return Err(e);
            },
        };
        add_words(&mut trie, def.name.as_str(), i);
        let ghost pre = names_of(defs@);
        defs.push(def);
        proof {
            let post = names_of(defs@);
            assert(post.len() == i + 1);
            assert forall|e: (Seq<char>, usize)| #[trigger] catalog_words(post).contains(e) <==> catalog_words(pre).contains(e) || (e.1 == i && crate::catalog::is_word_of(defs@[i as int].name@, e.0)) by {
                if e.1 < i {
                    assert(post[e.1 as int] == pre[e.1 as int]);
                }
            }
            assert(trie.entries() =~= catalog_words(post));
            assert(post.drop_last() =~= pre);
            assert(post.last() == defs@[i as int].name@);
        }
        i = i + 1;
    }
    Ok((trie, defs))
}

} // verus!
