use vstd::prelude::*;

verus! {
/// A Unicode general category, as named in the second-to-last column of a
/// character database row.
#[derive(Debug, Clone, Copy, PartialEq, Eq, Structural)]
pub enum UnicodeGeneralCategory {
    LC,
    Lu,
    Ll,
    Lt,
    L,
    Lm,
    Lo,
    M,
    Mn,
    Mc,
    Me,
    N,
    Nd,
    Nl,
    No,
    P,
    Pc,
    Pd,
    Ps,
    Pe,
    Pi,
    Pf,
    Po,
    S,
    Sm,
    Sc,
    Sk,
    So,
    Z,
    Zs,
    Zl,
    Zp,
    C,
    Cc,
    Cf,
    Cs,
    Co,
    Cn,
}

/// The tag that names a category in the database, letter for letter.
pub open spec fn category_tag(c: UnicodeGeneralCategory) -> Seq<char> {
    match c {
        UnicodeGeneralCategory::LC => seq!['L', 'C'],
        UnicodeGeneralCategory::Lu => seq!['L', 'u'],
        UnicodeGeneralCategory::Ll => seq!['L', 'l'],
        UnicodeGeneralCategory::Lt => seq!['L', 't'],
        UnicodeGeneralCategory::L => seq!['L'],
        UnicodeGeneralCategory::Lm => seq!['L', 'm'],
        UnicodeGeneralCategory::Lo => seq!['L', 'o'],
        UnicodeGeneralCategory::M => seq!['M'],
        UnicodeGeneralCategory::Mn => seq!['M', 'n'],
        UnicodeGeneralCategory::Mc => seq!['M', 'c'],
        UnicodeGeneralCategory::Me => seq!['M', 'e'],
        UnicodeGeneralCategory::N => seq!['N'],
        UnicodeGeneralCategory::Nd => seq!['N', 'd'],
        UnicodeGeneralCategory::Nl => seq!['N', 'l'],
        UnicodeGeneralCategory::No => seq!['N', 'o'],
        UnicodeGeneralCategory::P => seq!['P'],
        UnicodeGeneralCategory::Pc => seq!['P', 'c'],
        UnicodeGeneralCategory::Pd => seq!['P', 'd'],
        UnicodeGeneralCategory::Ps => seq!['P', 's'],
        UnicodeGeneralCategory::Pe => seq!['P', 'e'],
        UnicodeGeneralCategory::Pi => seq!['P', 'i'],
        UnicodeGeneralCategory::Pf => seq!['P', 'f'],
        UnicodeGeneralCategory::Po => seq!['P', 'o'],
        UnicodeGeneralCategory::S => seq!['S'],
        UnicodeGeneralCategory::Sm => seq!['S', 'm'],
        UnicodeGeneralCategory::Sc => seq!['S', 'c'],
        UnicodeGeneralCategory::Sk => seq!['S', 'k'],
        UnicodeGeneralCategory::So => seq!['S', 'o'],
        UnicodeGeneralCategory::Z => seq!['Z'],
        UnicodeGeneralCategory::Zs => seq!['Z', 's'],
        UnicodeGeneralCategory::Zl => seq!['Z', 'l'],
        UnicodeGeneralCategory::Zp => seq!['Z', 'p'],
        UnicodeGeneralCategory::C => seq!['C'],
        UnicodeGeneralCategory::Cc => seq!['C', 'c'],
        UnicodeGeneralCategory::Cf => seq!['C', 'f'],
        UnicodeGeneralCategory::Cs => seq!['C', 's'],
        UnicodeGeneralCategory::Co => seq!['C', 'o'],
        UnicodeGeneralCategory::Cn => seq!['C', 'n'],
    }
}

/// True when some category carries the tag `s`.
pub open spec fn is_category_tag(s: Seq<char>) -> bool {
    exists|c: UnicodeGeneralCategory| category_tag(c) == s
}

impl UnicodeGeneralCategory {
    /// Reads a category tag. Matching is exact and case-sensitive; an unknown
    /// tag is handed back as the error.
    pub fn parse(category: &str) -> (r: Result<UnicodeGeneralCategory, &str>)
        ensures
            match r {
                Ok(c) => category_tag(c) == category@,
                Err(e) => e@ == category@ && !is_category_tag(category@),
            },
    {
        let n = category.unicode_len();
        if n == 1 {
            let a = category.get_char(0);
            match a {
                'L' => {
                    return Ok(UnicodeGeneralCategory::L);
                },
                'M' => {
                    return Ok(UnicodeGeneralCategory::M);
                },
                'N' => {
                    return Ok(UnicodeGeneralCategory::N);
                },
                'P' => {
                    return Ok(UnicodeGeneralCategory::P);
                },
                'S' => {
                    return Ok(UnicodeGeneralCategory::S);
                },
                'Z' => {
                    return Ok(UnicodeGeneralCategory::Z);
                },
                'C' => {
                    return Ok(UnicodeGeneralCategory::C);
                },
                _ => {},
            }
        } else if n == 2 {
            let a = category.get_char(0);
            let b = category.get_char(1);
            match (a, b) {
                ('L', 'C') => {
                    return Ok(UnicodeGeneralCategory::LC);
                },
                ('L', 'u') => {
                    return Ok(UnicodeGeneralCategory::Lu);
                },
                ('L', 'l') => {
                    return Ok(UnicodeGeneralCategory::Ll);
                },
                ('L', 't') => {
                    return Ok(UnicodeGeneralCategory::Lt);
                },
                ('L', 'm') => {
                    return Ok(UnicodeGeneralCategory::Lm);
                },
                ('L', 'o') => {
                    return Ok(UnicodeGeneralCategory::Lo);
                },
                ('M', 'n') => {
                    return Ok(UnicodeGeneralCategory::Mn);
                },
                ('M', 'c') => {
                    return Ok(UnicodeGeneralCategory::Mc);
                },
                ('M', 'e') => {
                    return Ok(UnicodeGeneralCategory::Me);
                },
                ('N', 'd') => {
                    return Ok(UnicodeGeneralCategory::Nd);
                },
                ('N', 'l') => {
                    return Ok(UnicodeGeneralCategory::Nl);
                },
                ('N', 'o') => {
                    return Ok(UnicodeGeneralCategory::No);
                },
                ('P', 'c') => {
                    return Ok(UnicodeGeneralCategory::Pc);
                },
                ('P', 'd') => {
                    return Ok(UnicodeGeneralCategory::Pd);
                },
                ('P', 's') => {
                    return Ok(UnicodeGeneralCategory::Ps);
                },
                ('P', 'e') => {
                    return Ok(UnicodeGeneralCategory::Pe);
                },
                ('P', 'i') => {
                    return Ok(UnicodeGeneralCategory::Pi);
                },
                ('P', 'f') => {
                    return Ok(UnicodeGeneralCategory::Pf);
                },
                ('P', 'o') => {
                    return Ok(UnicodeGeneralCategory::Po);
                },
                ('S', 'm') => {
                    return Ok(UnicodeGeneralCategory::Sm);
                },
                ('S', 'c') => {
                    return Ok(UnicodeGeneralCategory::Sc);
                },
                ('S', 'k') => {
                    return Ok(UnicodeGeneralCategory::Sk);
                },
                ('S', 'o') => {
                    return Ok(UnicodeGeneralCategory::So);
                },
                ('Z', 's') => {
                    return Ok(UnicodeGeneralCategory::Zs);
                },
                ('Z', 'l') => {
                    return Ok(UnicodeGeneralCategory::Zl);
                },
                ('Z', 'p') => {
                    return Ok(UnicodeGeneralCategory::Zp);
                },
                ('C', 'c') => {
                    return Ok(UnicodeGeneralCategory::Cc);
                },
                ('C', 'f') => {
                    return Ok(UnicodeGeneralCategory::Cf);
                },
                ('C', 's') => {
                    return Ok(UnicodeGeneralCategory::Cs);
                },
                ('C', 'o') => {
                    return Ok(UnicodeGeneralCategory::Co);
                },
                ('C', 'n') => {
                    return Ok(UnicodeGeneralCategory::Cn);
                },
                _ => {},
            }
        }
        proof {
            assert forall|c: UnicodeGeneralCategory| category_tag(c) != category@ by {
                if category_tag(c) == category@ {
                    if n == 1 {
                        assert(category@[0] == category_tag(c)[0]);
                    } else if n == 2 {
                        assert(category@[0] == category_tag(c)[0]);
                        assert(category@[1] == category_tag(c)[1]);
                    }
                }
            }
        }
        Err(category)
    }
}

} // verus!
