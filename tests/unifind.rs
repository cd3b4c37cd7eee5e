use unifind::catalog::{add_words, is_space};
use unifind::trie::chars_of;
use unifind::{
    build_trie, find, index_catalog, parse_row, search_and, search_or, FlatTrie, RowError,
    SearchResult, Trie, UnicodeDefinition, UnicodeGeneralCategory,
};

fn def(codepoint: u32, name: &str) -> UnicodeDefinition {
    UnicodeDefinition {
        codepoint,
        name: String::from(name),
        general_category: UnicodeGeneralCategory::Lu,
    }
}

fn latin_catalog() -> Vec<UnicodeDefinition> {
    vec![def(0x41, "LATIN CAPITAL LETTER A"), def(0x42, "LATIN CAPITAL LETTER B")]
}

fn terms(ts: &[&str]) -> Vec<String> {
    ts.iter().map(|t| t.to_string()).collect()
}

fn pairs(r: &[SearchResult]) -> Vec<(usize, usize)> {
    r.iter().map(|x| (x.def_idx, x.hits)).collect()
}

fn sorted_pairs(r: &[SearchResult]) -> Vec<(usize, usize)> {
    let mut p = pairs(r);
    p.sort();
    p
}

fn found(trie: &FlatTrie, term: &str) -> Vec<usize> {
    let mut out = Vec::new();
    find(trie, term, &mut out);
    out
}

#[test]
fn and_two_shared_words() {
    let trie = index_catalog(&latin_catalog());
    let r = search_and(&trie, &terms(&["LATIN", "CAPITAL"]));
    assert_eq!(sorted_pairs(&r), vec![(0, 2), (1, 2)]);
}

#[test]
fn and_shared_and_distinct_word() {
    let trie = index_catalog(&latin_catalog());
    let r = search_and(&trie, &terms(&["LATIN", "B"]));
    assert_eq!(pairs(&r), vec![(1, 2)]);
}

#[test]
fn or_single_letter_word() {
    let trie = index_catalog(&latin_catalog());
    let r = search_or(&trie, &terms(&["A"]));
    assert_eq!(pairs(&r), vec![(0, 1)]);
}

#[test]
fn nonexistent_prefix_is_empty() {
    let trie = index_catalog(&latin_catalog());
    assert!(found(&trie, "NONEXISTENTPREFIX").is_empty());
    assert!(search_or(&trie, &terms(&["NONEXISTENTPREFIX"])).is_empty());
    assert!(search_and(&trie, &terms(&["NONEXISTENTPREFIX"])).is_empty());
}

#[test]
fn find_matches_prefixes() {
    let trie = index_catalog(&latin_catalog());
    let mut r = found(&trie, "CAP");
    r.sort();
    assert_eq!(r, vec![0, 1]);
    let mut r = found(&trie, "LETTER");
    r.sort();
    assert_eq!(r, vec![0, 1]);
    assert!(found(&trie, "APITAL").is_empty());
}

#[test]
fn find_is_case_sensitive() {
    let trie = index_catalog(&latin_catalog());
    assert!(found(&trie, "latin").is_empty());
}

#[test]
fn find_appends_to_results() {
    let trie = index_catalog(&latin_catalog());
    let mut out = vec![7];
    find(&trie, "B", &mut out);
    assert_eq!(out, vec![7, 1]);
}

#[test]
fn empty_term_matches_nothing() {
    let trie = index_catalog(&latin_catalog());
    let mut out = vec![5];
    find(&trie, "", &mut out);
    assert_eq!(out, vec![5]);
    assert!(search_or(&trie, &terms(&[""])).is_empty());
    assert!(search_and(&trie, &terms(&["", "LATIN"])).is_empty());
}

#[test]
fn repeated_word_counts_twice() {
    let trie = index_catalog(&vec![def(0x1, "DOT DOT"), def(0x2, "DOT")]);
    let r = search_or(&trie, &terms(&["DOT"]));
    assert_eq!(pairs(&r), vec![(1, 1), (0, 2)]);
}

#[test]
fn or_sorted_by_hits() {
    let cat = vec![
        def(0x1, "BLACK STAR"),
        def(0x2, "WHITE STAR"),
        def(0x3, "BLACK CIRCLE"),
    ];
    let trie = index_catalog(&cat);
    let r = search_or(&trie, &terms(&["BLACK", "STAR"]));
    assert_eq!(sorted_pairs(&r), vec![(0, 2), (1, 1), (2, 1)]);
    for w in r.windows(2) {
        assert!(w[0].hits <= w[1].hits);
    }
    assert_eq!(r[2].def_idx, 0);
}

#[test]
fn or_is_union_of_finds() {
    let cat = vec![
        def(0x1, "BLACK STAR"),
        def(0x2, "WHITE STAR"),
        def(0x3, "BLACK CIRCLE"),
    ];
    let trie = index_catalog(&cat);
    let r = search_or(&trie, &terms(&["WHITE", "CIRC"]));
    assert_eq!(sorted_pairs(&r), vec![(1, 1), (2, 1)]);
}

#[test]
fn and_with_one_term_matches_or() {
    let trie = index_catalog(&latin_catalog());
    let a = search_and(&trie, &terms(&["LAT"]));
    let o = search_or(&trie, &terms(&["LAT"]));
    assert_eq!(sorted_pairs(&a), sorted_pairs(&o));
    assert_eq!(sorted_pairs(&a), vec![(0, 1), (1, 1)]);
}

#[test]
fn and_keeps_first_occurrence_order() {
    let cat = vec![def(0x1, "X ONE"), def(0x2, "X TWO"), def(0x3, "Y")];
    let trie = index_catalog(&cat);
    let r = search_and(&trie, &terms(&["X", "X"]));
    assert_eq!(pairs(&r), vec![(0, 2), (1, 2)]);
}

#[test]
fn and_with_no_terms_is_empty() {
    let trie = index_catalog(&latin_catalog());
    assert!(search_and(&trie, &terms(&[])).is_empty());
    assert!(search_or(&trie, &terms(&[])).is_empty());
}

#[test]
fn repeated_queries_agree() {
    let trie = index_catalog(&latin_catalog());
    let t = terms(&["LATIN", "LETTER", "A"]);
    assert_eq!(pairs(&search_or(&trie, &t)), pairs(&search_or(&trie, &t)));
    assert_eq!(pairs(&search_and(&trie, &t)), pairs(&search_and(&trie, &t)));
}

#[test]
fn definition_of_result() {
    let cat = latin_catalog();
    let trie = index_catalog(&cat);
    let r = search_and(&trie, &terms(&["B"]));
    assert_eq!(r.len(), 1);
    let d = r[0].definition(&cat);
    assert_eq!(d.codepoint, 0x42);
    assert_eq!(d.name, "LATIN CAPITAL LETTER B");
}

#[test]
fn category_tags() {
    assert_eq!(UnicodeGeneralCategory::parse("Lu"), Ok(UnicodeGeneralCategory::Lu));
    assert_eq!(UnicodeGeneralCategory::parse("LC"), Ok(UnicodeGeneralCategory::LC));
    assert_eq!(UnicodeGeneralCategory::parse("L"), Ok(UnicodeGeneralCategory::L));
    assert_eq!(UnicodeGeneralCategory::parse("Cn"), Ok(UnicodeGeneralCategory::Cn));
    assert_eq!(UnicodeGeneralCategory::parse("Zs"), Ok(UnicodeGeneralCategory::Zs));
    assert_eq!(UnicodeGeneralCategory::parse("lu"), Err("lu"));
    assert_eq!(UnicodeGeneralCategory::parse("Lux"), Err("Lux"));
    assert_eq!(UnicodeGeneralCategory::parse(""), Err(""));
    assert_eq!(UnicodeGeneralCategory::parse("X"), Err("X"));
}

#[test]
fn row_parses() {
    let d = parse_row("0041;LATIN CAPITAL LETTER A;Lu;0;L;;;;;N;;;;0061;").unwrap();
    assert_eq!(d.codepoint, 0x41);
    assert_eq!(d.name, "LATIN CAPITAL LETTER A");
    assert_eq!(d.general_category, UnicodeGeneralCategory::Lu);
}

#[test]
fn row_with_three_fields() {
    let d = parse_row("1f600;GRINNING FACE;So").unwrap();
    assert_eq!(d.codepoint, 0x1F600);
    assert_eq!(d.name, "GRINNING FACE");
    assert_eq!(d.general_category, UnicodeGeneralCategory::So);
}

#[test]
fn row_with_plus_sign() {
    assert_eq!(parse_row("+20;SPACE;Zs").unwrap().codepoint, 0x20);
}

#[test]
fn row_missing_field() {
    assert_eq!(parse_row("0041;LATIN CAPITAL LETTER A").err(), Some(RowError::MissingField));
    assert_eq!(parse_row("").err(), Some(RowError::MissingField));
}

#[test]
fn row_bad_codepoint() {
    assert_eq!(parse_row("00G1;X;Lu").err(), Some(RowError::BadCodepoint));
    assert_eq!(parse_row(";X;Lu").err(), Some(RowError::BadCodepoint));
    assert_eq!(parse_row("+;X;Lu").err(), Some(RowError::BadCodepoint));
    assert_eq!(parse_row("-41;X;Lu").err(), Some(RowError::BadCodepoint));
    assert_eq!(parse_row("100000000;X;Lu").err(), Some(RowError::BadCodepoint));
    assert_eq!(parse_row("FFFFFFFF;X;Lu").unwrap().codepoint, 0xFFFF_FFFF);
}

#[test]
fn row_unknown_category() {
    assert_eq!(parse_row("0041;X;Qq").err(), Some(RowError::UnknownCategory));
    assert_eq!(parse_row("0041;X;").err(), Some(RowError::UnknownCategory));
}

#[test]
fn build_from_rows() {
    let lines = terms(&["0041;LATIN CAPITAL LETTER A;Lu;", "0062;LATIN SMALL LETTER B;Ll;"]);
    let (trie, defs) = build_trie(&lines).unwrap();
    assert_eq!(defs.len(), 2);
    assert_eq!(defs[1].codepoint, 0x62);
    let flat = trie.flatten();
    let r = search_and(&flat, &terms(&["LATIN", "SMALL"]));
    assert_eq!(pairs(&r), vec![(1, 2)]);
}

#[test]
fn build_stops_at_first_bad_row() {
    let lines = terms(&["0041;A;Lu", "0042;B;Zz", "zz;C;Lu"]);
    assert_eq!(build_trie(&lines).err(), Some(RowError::UnknownCategory));
}

#[test]
fn new_trie_has_root_only() {
    let t = Trie::new();
    assert_eq!(t.size(), 1);
    let flat = t.flatten();
    assert!(found(&flat, "").is_empty());
}

#[test]
fn add_shares_prefixes() {
    let mut t = Trie::new();
    t.add(&['C', 'A', 'T'], 0);
    assert_eq!(t.size(), 4);
    t.add(&['C', 'A', 'R'], 1);
    assert_eq!(t.size(), 5);
    t.add(&['C', 'A'], 2);
    assert_eq!(t.size(), 5);
    let flat = t.flatten();
    let mut r = found(&flat, "CA");
    r.sort();
    assert_eq!(r, vec![0, 1, 2]);
    assert_eq!(found(&flat, "CAR"), vec![1]);
    let keys: Vec<char> = flat.nodes[2].children.iter().map(|c| c.0).collect();
    assert_eq!(keys, vec!['R', 'T']);
}

#[test]
fn words_split_on_white_space() {
    let mut t = Trie::new();
    add_words(&mut t, "  NO-BREAK\u{a0}SPACE\tTAB  ", 3);
    let flat = t.flatten();
    assert_eq!(found(&flat, "NO-BREAK"), vec![3]);
    assert_eq!(found(&flat, "SPACE"), vec![3]);
    assert_eq!(found(&flat, "TAB"), vec![3]);
    assert!(found(&flat, "").is_empty());
}

#[test]
fn white_space_set() {
    assert!(is_space(' '));
    assert!(is_space('\t'));
    assert!(is_space('\u{3000}'));
    assert!(is_space('\u{2009}'));
    assert!(!is_space('A'));
    assert!(!is_space('\u{200b}'));
    for c in ['\u{85}', '\u{1680}', '\u{2028}', '\u{205f}', 'x', '-', '\u{0}'] {
        assert_eq!(is_space(c), c.is_whitespace());
    }
}

#[test]
fn chars_of_string() {
    assert_eq!(chars_of("aé😀"), vec!['a', 'é', '😀']);
    assert!(chars_of("").is_empty());
}

#[test]
fn flatten_numbers_in_pre_order() {
    let mut t = Trie::new();
    t.add(&['B'], 0);
    t.add(&['A', 'C'], 1);
    t.add(&['A', 'B'], 2);
    assert_eq!(t.size(), 5);
    let flat = t.flatten();
    assert_eq!(flat.nodes.len(), 5);
    assert_eq!(flat.nodes[0].children, vec![('A', 1), ('B', 4)]);
    assert_eq!(flat.nodes[1].children, vec![('B', 2), ('C', 3)]);
    assert_eq!(flat.nodes[2].definitions, vec![2]);
    assert_eq!(flat.nodes[3].definitions, vec![1]);
    assert_eq!(flat.nodes[4].definitions, vec![0]);
    assert_eq!(found(&flat, "A"), vec![2, 1]);
}

#[test]
fn definitions_kept_in_catalog_order() {
    let lines = terms(&["0041;DOT LATIN DOT;Lu", "0042;LATIN;Lu", "0043;DOT;Lu"]);
    let (trie, _defs) = build_trie(&lines).unwrap();
    let size = trie.size();
    let flat = trie.flatten();
    assert_eq!(flat.nodes.len(), size);
    assert_eq!(found(&flat, "DOT"), vec![0, 0, 2]);
    assert_eq!(found(&flat, "LATIN"), vec![0, 1]);
    let r = search_or(&flat, &terms(&["DOT", "LATIN"]));
    assert_eq!(pairs(&r), vec![(2, 1), (1, 1), (0, 3)]);
}
