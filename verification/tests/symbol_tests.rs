use lean_parser::symbols::{
    FuzzyIndex, FuzzyScore, IndexedSymbol, Symbol, SymbolIndex, SymbolKind, TextRange,
};

fn score_value(s: FuzzyScore) -> f64 {
    s.numerator as f64 / s.denominator as f64
}

fn symbol(name: &str, kind: SymbolKind, start: usize, end: usize, defines: bool) -> Symbol {
    Symbol {
        name: name.to_string(),
        kind,
        range: TextRange::new(start, end),
        definition_range: if defines { Some(TextRange::new(start, end)) } else { None },
        signature: None,
        documentation: None,
    }
}

#[test]
fn test_fuzzy_search() {
    let index = FuzzyIndex::new();

    // Test exact match
    assert!(score_value(index.fuzzy_score("test", "test")) > 0.8);

    // Test substring match
    assert!(score_value(index.fuzzy_score("test", "testing")) > 0.7);

    // Test fuzzy match
    assert!(score_value(index.fuzzy_score("tst", "test")) > 0.0);

    // Test no match
    assert_eq!(score_value(index.fuzzy_score("xyz", "test")), 0.0);
}

#[test]
fn test_symbol_index_operations() {
    let mut index = SymbolIndex::new();
    let file_path = String::from("test.lean");

    let symbols = vec![Symbol {
        name: "test_function".to_string(),
        kind: SymbolKind::Definition,
        range: TextRange::new(0, 10),
        definition_range: Some(TextRange::new(0, 10)),
        signature: Some("def test_function : Nat".to_string()),
        documentation: None,
    }];

    index.update_file(&file_path, &symbols);

    let name = String::from("test_function");
    assert!(index.find_definition(&name).is_some());

    let file_symbols = index.file_symbols(&file_path);
    assert_eq!(file_symbols.len(), 1);

    index.remove_file(&file_path);
    assert!(index.find_definition(&name).is_none());
}

#[test]
fn fuzzy_score_exact_values() {
    let index = FuzzyIndex::new();
    assert_eq!(index.fuzzy_score("", "anything"), FuzzyScore { numerator: 0, denominator: 1 });
    assert_eq!(index.fuzzy_score("test", "test"), FuzzyScore { numerator: 9, denominator: 10 });
    assert_eq!(index.fuzzy_score("tst", "test"), FuzzyScore { numerator: 3, denominator: 4 });
    assert_eq!(index.fuzzy_score("ac", "abcd"), FuzzyScore { numerator: 2, denominator: 4 });
    assert_eq!(index.fuzzy_score("ca", "abc"), FuzzyScore { numerator: 0, denominator: 1 });
    // The length of the name counts in UTF-8 bytes.
    assert_eq!(index.fuzzy_score("ab", "aéb"), FuzzyScore { numerator: 2, denominator: 4 });
    // Characters outside ASCII match one by one; the name's length still
    // counts in bytes.
    assert_eq!(index.fuzzy_score("éb", "éxb"), FuzzyScore { numerator: 2, denominator: 4 });
    assert_eq!(index.fuzzy_score("αγ", "αβγ"), FuzzyScore { numerator: 2, denominator: 6 });
}

#[test]
fn namespaces_qualify_later_symbols() {
    let mut index = SymbolIndex::new();
    let file = String::from("a.lean");
    let symbols = vec![
        symbol("Foo", SymbolKind::Namespace, 0, 3, true),
        symbol("Bar", SymbolKind::Namespace, 4, 7, true),
        symbol("baz", SymbolKind::Definition, 8, 11, true),
    ];
    index.update_file(&file, &symbols);
    let indexed: Vec<IndexedSymbol> = index.file_symbols(&file);
    let names: Vec<String> = indexed.iter().map(|x| x.qualified_name.clone()).collect();
    assert_eq!(names, vec!["Foo", "Foo.Bar", "Foo.Bar.baz"]);
    assert_eq!(indexed[2].namespace, vec!["Foo".to_string(), "Bar".to_string()]);
    let (path, range) = index.find_definition(&String::from("Foo.Bar.baz")).unwrap();
    assert_eq!(path, "a.lean");
    assert_eq!(range, TextRange::new(8, 11));
    assert!(index.find_definition(&String::from("baz")).is_none());

    let inside = index.symbols_in_namespace(&[String::from("Foo")]);
    assert_eq!(inside.len(), 2);
    let inside_bar = index.symbols_in_namespace(&[String::from("Foo"), String::from("Bar")]);
    assert_eq!(inside_bar.len(), 1);
    assert_eq!(inside_bar[0].qualified_name, "Foo.Bar.baz");
}

#[test]
fn definitions_win_over_references() {
    let mut index = SymbolIndex::new();
    index.update_file(&String::from("use.lean"), &[symbol("f", SymbolKind::Definition, 5, 6, false)]);
    index.update_file(&String::from("def.lean"), &[symbol("f", SymbolKind::Definition, 1, 2, true)]);
    let (path, range) = index.find_definition(&String::from("f")).unwrap();
    assert_eq!(path, "def.lean");
    assert_eq!(range, TextRange::new(1, 2));
    let refs = index.find_references(&String::from("f"));
    assert_eq!(refs.len(), 2);
    assert_eq!(refs[0].0, "use.lean");

    index.remove_file(&String::from("def.lean"));
    let (path, _) = index.find_definition(&String::from("f")).unwrap();
    assert_eq!(path, "use.lean");
}

#[test]
fn updating_a_file_replaces_its_symbols() {
    let mut index = SymbolIndex::new();
    let file = String::from("x.lean");
    index.update_file(&file, &[symbol("old", SymbolKind::Theorem, 0, 3, true)]);
    index.update_file(&file, &[symbol("new", SymbolKind::Theorem, 0, 3, true)]);
    assert!(index.find_definition(&String::from("old")).is_none());
    assert!(index.find_definition(&String::from("new")).is_some());
    let stats = index.stats();
    assert_eq!(stats.total_symbols, 1);
    assert_eq!(stats.total_files, 1);
    assert_eq!(stats.total_locations, 1);
}

#[test]
fn stats_kinds_and_clear() {
    let mut index = SymbolIndex::new();
    index.update_file(
        &String::from("a.lean"),
        &[symbol("t1", SymbolKind::Theorem, 0, 2, true), symbol("d1", SymbolKind::Definition, 3, 5, true)],
    );
    index.update_file(&String::from("b.lean"), &[symbol("t1", SymbolKind::Theorem, 0, 2, false)]);
    let stats = index.stats();
    assert_eq!(stats.total_symbols, 2);
    assert_eq!(stats.total_files, 2);
    assert_eq!(stats.total_locations, 3);
    assert_eq!(index.symbols_by_kind(SymbolKind::Theorem).len(), 2);
    assert_eq!(index.symbols_by_kind(SymbolKind::Axiom).len(), 0);
    index.clear();
    let stats = index.stats();
    assert_eq!(stats.total_symbols, 0);
    assert_eq!(stats.total_files, 0);
    assert_eq!(stats.total_locations, 0);
    assert!(index.search_symbols("t").is_empty());
}

#[test]
fn search_sorts_by_score_and_ignores_case() {
    let mut index = SymbolIndex::new();
    index.update_file(
        &String::from("m.lean"),
        &[
            symbol("abcdefgh", SymbolKind::Definition, 0, 1, true),
            symbol("Map", SymbolKind::Definition, 2, 3, true),
            symbol("ma", SymbolKind::Definition, 4, 5, true),
            symbol("other", SymbolKind::Definition, 6, 7, true),
        ],
    );
    let results = index.search_symbols("MA");
    let names: Vec<String> = results.iter().map(|r| r.name.clone()).collect();
    assert_eq!(names.len(), 2);
    assert!(names.contains(&String::from("Map")));
    assert!(names.contains(&String::from("ma")));
    for r in &results {
        assert_eq!(r.score, FuzzyScore { numerator: 9, denominator: 10 });
    }
    let results = index.search_symbols("ah");
    assert_eq!(results.len(), 1);
    assert_eq!(results[0].name, "abcdefgh");
    assert_eq!(results[0].score, FuzzyScore { numerator: 2, denominator: 8 });

    let results = index.search_symbols("a");
    let scores: Vec<f64> = results.iter().map(|r| score_value(r.score)).collect();
    for w in scores.windows(2) {
        assert!(w[0] >= w[1]);
    }
}

#[test]
fn search_is_limited_to_fifty_results() {
    let mut index = SymbolIndex::new();
    let symbols: Vec<Symbol> =
        (0..60).map(|i| symbol(&format!("name{}", i), SymbolKind::Definition, i, i + 1, true)).collect();
    index.update_file(&String::from("many.lean"), &symbols);
    assert_eq!(index.search_symbols("name").len(), 50);
    assert_eq!(index.search_symbols("name").len(), 50);
    let fuzzy = FuzzyIndex::new();
    assert!(fuzzy.search("x", 10).is_empty());
}

#[test]
fn updating_twice_is_updating_once() {
    let other = String::from("other.lean");
    let file = String::from("f.lean");
    let first = [symbol("a", SymbolKind::Theorem, 0, 1, true), symbol("b", SymbolKind::Definition, 2, 3, true)];
    let second = [symbol("b", SymbolKind::Definition, 4, 5, true), symbol("c", SymbolKind::Axiom, 6, 7, false)];

    let mut twice = SymbolIndex::new();
    twice.update_file(&other, &[symbol("b", SymbolKind::Definition, 0, 1, false)]);
    twice.update_file(&file, &first);
    twice.update_file(&file, &second);

    let mut once = SymbolIndex::new();
    once.update_file(&other, &[symbol("b", SymbolKind::Definition, 0, 1, false)]);
    once.update_file(&file, &second);

    for name in ["a", "b", "c"] {
        let n = String::from(name);
        assert_eq!(twice.find_references(&n), once.find_references(&n));
    }
    assert_eq!(twice.file_symbols(&file).len(), once.file_symbols(&file).len());
    assert_eq!(twice.file_symbols(&other).len(), 1);
    let (s1, s2) = (twice.stats(), once.stats());
    assert_eq!((s1.total_symbols, s1.total_files, s1.total_locations), (s2.total_symbols, s2.total_files, s2.total_locations));
    assert_eq!((s1.total_symbols, s1.total_files, s1.total_locations), (2, 2, 3));
    assert!(s1.total_symbols <= s1.total_locations);
}
