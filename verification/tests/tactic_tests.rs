use lean_parser::error::{ParseErrorKind, ParserResult};
use lean_parser::parser::{Parser, ParsingMode};
use lean_parser::syntax::{Syntax, SyntaxKind};

fn ident_term(p: &mut Parser) -> ParserResult<Syntax> {
    p.identifier()
}

fn atom_value(s: &Syntax) -> String {
    match s {
        Syntax::Atom(a) => a.value.clone(),
        _ => panic!("expected an atom, got {:?}", s),
    }
}

fn node_parts(s: &Syntax) -> (SyntaxKind, usize, usize, &Vec<Syntax>) {
    match s {
        Syntax::Node(n) => (n.kind, n.range.start.offset, n.range.end.offset, &n.children),
        _ => panic!("expected a node, got {:?}", s),
    }
}

fn expected_text(r: &ParserResult<Syntax>) -> String {
    match r {
        Err(e) => match &e.kind {
            ParseErrorKind::Expected(what) => what.clone(),
            other => panic!("expected an `Expected` error, got {:?}", other),
        },
        Ok(s) => panic!("expected an error, got {:?}", s),
    }
}

#[test]
fn test_linarith_tactic() {
    let mut parser = Parser::new("linarith");
    let result = parser.with_mode(ParsingMode::Tactic, |p| p.linarith_tactic(ident_term)).unwrap();
    assert!(matches!(result, Syntax::Node(node) if node.kind == SyntaxKind::CustomTactic));

    let mut parser = Parser::new("linarith [h1, h2]");
    let result = parser.with_mode(ParsingMode::Tactic, |p| p.linarith_tactic(ident_term)).unwrap();
    assert!(matches!(result, Syntax::Node(node) if node.kind == SyntaxKind::CustomTactic));
}

#[test]
fn test_simp_all_tactic() {
    let mut parser = Parser::new("simp_all");
    let result = parser.with_mode(ParsingMode::Tactic, |p| p.simp_all_tactic(ident_term)).unwrap();
    assert!(matches!(result, Syntax::Node(node) if node.kind == SyntaxKind::CustomTactic));
}

#[test]
fn linarith_hypotheses_become_children() {
    let mut parser = Parser::new("linarith [h1 , h2]");
    let result = parser.linarith_tactic(ident_term).unwrap();
    let (kind, start, end, children) = node_parts(&result);
    assert_eq!(kind, SyntaxKind::CustomTactic);
    assert_eq!((start, end), (0, 18));
    assert_eq!(children.len(), 2);
    assert_eq!(atom_value(&children[0]), "h1");
    assert_eq!(atom_value(&children[1]), "h2");

    let mut parser = Parser::new("linarith  []");
    let tree1 = parser.linarith_tactic(ident_term).unwrap();
    let (_, _, end, children) = node_parts(&tree1);
    assert_eq!(end, 12);
    assert!(children.is_empty());
}

#[test]
fn linarith_list_errors() {
    let mut parser = Parser::new("linarith [h1 h2]");
    let result = parser.linarith_tactic(ident_term);
    assert_eq!(expected_text(&result), ", or ]");
    assert_eq!(parser.position().offset, 13);

    let mut parser = Parser::new("linarith [1]");
    let result = parser.linarith_tactic(ident_term);
    assert_eq!(expected_text(&result), "identifier");

    let mut parser = Parser::new("linear");
    let result = parser.linarith_tactic(ident_term);
    assert_eq!(expected_text(&result), "keyword 'linarith'");
    assert_eq!(parser.position().offset, 0);
}

#[test]
fn simp_all_with_only_lemmas_and_config() {
    let mut parser = Parser::new("simp_all only [a, -b, ↑c] (config := cfg)");
    let result = parser.simp_all_tactic(ident_term).unwrap();
    let (kind, start, end, children) = node_parts(&result);
    assert_eq!(kind, SyntaxKind::CustomTactic);
    assert_eq!((start, end), (0, 43));
    assert_eq!(children.len(), 5);
    assert_eq!(atom_value(&children[0]), "only");
    assert_eq!(atom_value(&children[1]), "a");
    let (k, s, e, removed) = node_parts(&children[2]);
    assert_eq!(k, SyntaxKind::CustomTactic);
    assert_eq!((s, e), (20, 20));
    assert_eq!(removed.len(), 2);
    assert_eq!(atom_value(&removed[0]), "-");
    assert_eq!(atom_value(&removed[1]), "b");
    let (_, _, _, lifted) = node_parts(&children[3]);
    assert_eq!(lifted.len(), 2);
    assert_eq!(atom_value(&lifted[0]), "↑");
    assert_eq!(atom_value(&lifted[1]), "c");
    assert_eq!(atom_value(&children[4]), "cfg");
    assert_eq!(parser.position().offset, 43);
}

#[test]
fn field_simp_reads_but_drops_the_config() {
    let mut parser = Parser::new("field_simp [a] (config := cfg)");
    let result = parser.field_simp_tactic(ident_term).unwrap();
    let (_, _, end, children) = node_parts(&result);
    assert_eq!(end, 30);
    assert_eq!(children.len(), 1);
    assert_eq!(atom_value(&children[0]), "a");
}

#[test]
fn simp_parenthesis_without_config_is_left_alone() {
    let mut parser = Parser::new("simp_all (x)");
    let result = parser.simp_all_tactic(ident_term).unwrap();
    let (_, _, end, children) = node_parts(&result);
    assert!(children.is_empty());
    assert_eq!(end, 9);
    assert_eq!(parser.position().offset, 9);
}

#[test]
fn simp_errors() {
    let mut parser = Parser::new("simp_all (config := cfg");
    let result = parser.simp_all_tactic(ident_term);
    assert!(matches!(result, Err(e) if matches!(e.kind, ParseErrorKind::UnexpectedEof)));

    let mut parser = Parser::new("simp_all (config := cfg x)");
    let result = parser.simp_all_tactic(ident_term);
    assert_eq!(expected_text(&result), "')'");

    let mut parser = Parser::new("simp_all [a b]");
    let result = parser.simp_all_tactic(ident_term);
    assert_eq!(expected_text(&result), ", or ]");

    let mut parser = Parser::new("field_simp [2]");
    let result = parser.field_simp_tactic(ident_term);
    assert_eq!(expected_text(&result), "identifier");
}

#[test]
fn located_tactics() {
    let mut parser = Parser::new("ring_nf at h ⊢");
    let tree2 = parser.ring_nf_tactic().unwrap();
    let (kind, _, end, children) = node_parts(&tree2);
    assert_eq!(kind, SyntaxKind::CustomTactic);
    assert_eq!(end, 16);
    assert_eq!(children.len(), 1);
    let (_, start, _, targets) = node_parts(&children[0]);
    assert_eq!(start, 8);
    assert_eq!(targets.len(), 2);
    assert_eq!(atom_value(&targets[0]), "h");
    assert_eq!(atom_value(&targets[1]), "⊢");

    let mut parser = Parser::new("norm_num at *");
    let tree3 = parser.norm_num_tactic().unwrap();
    let (_, _, _, children) = node_parts(&tree3);
    let (_, _, _, targets) = node_parts(&children[0]);
    assert_eq!(targets.len(), 1);
    assert_eq!(atom_value(&targets[0]), "*");

    let mut parser = Parser::new("norm_num");
    let tree4 = parser.norm_num_tactic().unwrap();
    let (_, _, _, children) = node_parts(&tree4);
    assert!(children.is_empty());

    let mut parser = Parser::new("norm_num at");
    let result = parser.norm_num_tactic();
    assert_eq!(expected_text(&result), "location");
}

#[test]
fn suggest_and_aesop() {
    let mut parser = Parser::new("suggest 3");
    let tree5 = parser.suggest_tactic().unwrap();
    let (_, _, _, children) = node_parts(&tree5);
    assert_eq!(children.len(), 1);
    assert_eq!(atom_value(&children[0]), "3");

    let mut parser = Parser::new("suggest");
    let tree6 = parser.suggest_tactic().unwrap();
    let (_, _, _, children) = node_parts(&tree6);
    assert!(children.is_empty());

    let mut parser = Parser::new("aesop (safe, unsafe)");
    let tree7 = parser.aesop_tactic().unwrap();
    let (_, _, end, children) = node_parts(&tree7);
    assert_eq!(end, 20);
    assert_eq!(children.len(), 2);
    assert_eq!(atom_value(&children[1]), "unsafe");

    let mut parser = Parser::new("aesop (1)");
    assert_eq!(expected_text(&parser.aesop_tactic()), "identifier");

    let mut parser = Parser::new("omega");
    assert!(parser.omega_tactic().is_ok());
    let mut parser = Parser::new("tauto");
    assert!(parser.tauto_tactic().is_ok());
    let mut parser = Parser::new("abel");
    assert!(parser.abel_tactic().is_ok());
    let mut parser = Parser::new("hint");
    assert!(parser.hint_tactic().is_ok());
    let mut parser = Parser::new("library_search");
    assert!(parser.library_search_tactic().is_ok());
    let mut parser = Parser::new("ringo");
    assert_eq!(expected_text(&parser.ring_tactic()), "keyword 'ring'");
}

#[test]
fn interpolated_strings() {
    let mut parser = Parser::new("s!\"a{x}b\"");
    let result = parser.interpolated_string_literal(ident_term).unwrap();
    let (kind, start, end, children) = node_parts(&result);
    assert_eq!(kind, SyntaxKind::StringInterpolation);
    assert_eq!((start, end), (0, 9));
    assert_eq!(children.len(), 3);
    assert_eq!(atom_value(&children[0]), "a");
    assert_eq!(atom_value(&children[1]), "x");
    assert_eq!(atom_value(&children[2]), "b");

    let mut parser = Parser::new("s!\"tab\\there\"");
    let tree8 = parser.interpolated_string_literal(ident_term).unwrap();
    let (_, _, _, children) = node_parts(&tree8);
    assert_eq!(children.len(), 1);
    assert_eq!(atom_value(&children[0]), "tab\there");

    let mut parser = Parser::new("s!\"{x y}\"");
    let result = parser.interpolated_string_literal(ident_term);
    assert_eq!(expected_text(&result), "'}'");

    let mut parser = Parser::new("s!\"\\q\"");
    let result = parser.interpolated_string_literal(ident_term);
    assert!(matches!(result, Err(e) if matches!(&e.kind, ParseErrorKind::Custom(m) if m == "invalid escape sequence")));
}

#[test]
fn binder_groups() {
    let mut parser = Parser::new("(x y : T)");
    let tree9 = parser.binder_group(ident_term).unwrap();
    let (kind, start, end, children) = node_parts(&tree9);
    assert_eq!(kind, SyntaxKind::LeftParen);
    assert_eq!((start, end), (0, 9));
    assert_eq!(children.len(), 3);
    assert_eq!(atom_value(&children[2]), "T");

    let mut parser = Parser::new("{a}");
    let tree10 = parser.binder_group(ident_term).unwrap();
    let (kind, _, _, children) = node_parts(&tree10);
    assert_eq!(kind, SyntaxKind::LeftBrace);
    assert_eq!(children.len(), 1);

    let mut parser = Parser::new("[inst : C]");
    let tree11 = parser.binder_group(ident_term).unwrap();
    let (kind, _, _, children) = node_parts(&tree11);
    assert_eq!(kind, SyntaxKind::LeftBracket);
    assert_eq!(children.len(), 2);
    assert_eq!(atom_value(&children[0]), "inst");

    let mut parser = Parser::new("[C]");
    let tree12 = parser.binder_group(ident_term).unwrap();
    let (_, _, _, children) = node_parts(&tree12);
    assert_eq!(children.len(), 1);
    assert_eq!(atom_value(&children[0]), "C");

    let mut parser = Parser::new("[1]");
    assert_eq!(expected_text(&parser.binder_group(ident_term)), "instance implicit term");

    let mut parser = Parser::new("x");
    assert_eq!(expected_text(&parser.binder_group(ident_term)), "binder");
}
