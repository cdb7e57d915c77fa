use lean_parser::error::{ParseErrorKind, ParserResult};
use lean_parser::parser::Parser;
use lean_parser::syntax::{Syntax, SyntaxKind};

fn ident_term(p: &mut Parser) -> ParserResult<Syntax> {
    p.identifier()
}

fn node_parts(s: &Syntax) -> (SyntaxKind, usize, usize, &Vec<Syntax>) {
    match s {
        Syntax::Node(n) => (n.kind, n.range.start.offset, n.range.end.offset, &n.children),
        _ => panic!("expected a node, got {:?}", s),
    }
}

fn atom_value(s: &Syntax) -> String {
    match s {
        Syntax::Atom(a) => a.value.clone(),
        _ => panic!("expected an atom, got {:?}", s),
    }
}

fn expected_text(r: &ParserResult<Syntax>) -> String {
    match r {
        Err(e) => match &e.kind {
            ParseErrorKind::Expected(what) => what.clone(),
            other => panic!("expected an `Expected` error, got {:?}", other),
        },
        Ok(s) => panic!("expected an error, got {:?}", s),
    }
}

#[test]
fn if_then_else() {
    let mut parser = Parser::new("if c then a else b");
    let r = parser.if_term(ident_term).unwrap();
    let (kind, s, e, children) = node_parts(&r);
    assert_eq!(kind, SyntaxKind::Match);
    assert_eq!((s, e), (0, 18));
    let values: Vec<String> = children.iter().map(atom_value).collect();
    assert_eq!(values, vec!["c", "a", "b"]);

    let mut parser = Parser::new("if c than a else b");
    assert_eq!(expected_text(&parser.if_term(ident_term)), "keyword 'then'");
    let mut parser = Parser::new("if c then a");
    assert_eq!(expected_text(&parser.if_term(ident_term)), "keyword 'else'");
    let mut parser = Parser::new("iff c");
    assert_eq!(expected_text(&parser.if_term(ident_term)), "keyword 'if'");
}

#[test]
fn show_from() {
    let mut parser = Parser::new("show P from h");
    let r = parser.show_term(ident_term).unwrap();
    let (kind, s, e, children) = node_parts(&r);
    assert_eq!(kind, SyntaxKind::Show);
    assert_eq!((s, e), (0, 13));
    assert_eq!(atom_value(&children[0]), "P");
    assert_eq!(atom_value(&children[1]), "h");

    let mut parser = Parser::new("show P by h");
    assert_eq!(expected_text(&parser.show_term(ident_term)), "keyword 'from'");
}

#[test]
fn have_terms() {
    let mut parser = Parser::new("have h : P := pf");
    let r = parser.have_term(ident_term).unwrap();
    let (kind, s, e, children) = node_parts(&r);
    assert_eq!(kind, SyntaxKind::Have);
    assert_eq!((s, e), (0, 16));
    let values: Vec<String> = children.iter().map(atom_value).collect();
    assert_eq!(values, vec!["h", "P", "pf"]);

    let mut parser = Parser::new("have h P := pf");
    assert_eq!(expected_text(&parser.have_term(ident_term)), "':'");
    let mut parser = Parser::new("have h : P = pf");
    assert_eq!(expected_text(&parser.have_term(ident_term)), "':'");
    let mut parser = Parser::new("have h : P :- pf");
    assert_eq!(expected_text(&parser.have_term(ident_term)), "'='");
}

#[test]
fn let_terms() {
    let mut parser = Parser::new("let x := v in b");
    let r = parser.let_term(ident_term).unwrap();
    let (kind, s, e, children) = node_parts(&r);
    assert_eq!(kind, SyntaxKind::Let);
    assert_eq!((s, e), (0, 15));
    let values: Vec<String> = children.iter().map(atom_value).collect();
    assert_eq!(values, vec!["x", "v", "b"]);

    let mut parser = Parser::new("let mut x : T := v\nb");
    let r = parser.let_term(ident_term).unwrap();
    let values: Vec<String> = node_parts(&r).3.iter().map(atom_value).collect();
    assert_eq!(values, vec!["x", "T", "v", "b"]);

    let mut parser = Parser::new("let x = v");
    assert_eq!(expected_text(&parser.let_term(ident_term)), "':'");
    let mut parser = Parser::new("let x := v in");
    assert!(parser.let_term(ident_term).is_err());
}

#[test]
fn lambdas() {
    let mut parser = Parser::new("λ x (y : T) => b");
    let r = parser.lambda_term(ident_term).unwrap();
    let (kind, s, e, children) = node_parts(&r);
    assert_eq!(kind, SyntaxKind::Lambda);
    assert_eq!((s, e), (0, 17));
    assert_eq!(children.len(), 3);
    assert_eq!(atom_value(&children[0]), "x");
    assert_eq!(node_parts(&children[1]).0, SyntaxKind::LeftParen);
    assert_eq!(atom_value(&children[2]), "b");

    let mut parser = Parser::new("fun x → b");
    let r = parser.lambda_term(ident_term).unwrap();
    assert_eq!(node_parts(&r).3.len(), 2);
    let mut parser = Parser::new("\\x => x");
    assert!(parser.lambda_term(ident_term).is_ok());

    let mut parser = Parser::new("fun x b");
    assert_eq!(expected_text(&parser.lambda_term(ident_term)), "=> or →");
    let mut parser = Parser::new("func x => b");
    assert_eq!(expected_text(&parser.lambda_term(ident_term)), "keyword 'fun'");
}

#[test]
fn foralls() {
    let mut parser = Parser::new("∀ x y : T, P");
    let r = parser.forall_term(ident_term).unwrap();
    let (kind, s, e, children) = node_parts(&r);
    assert_eq!(kind, SyntaxKind::Forall);
    assert_eq!((s, e), (0, 14));
    assert_eq!(children.len(), 3);
    assert_eq!(atom_value(&children[0]), "x");
    let (bkind, bs, be, bchildren) = node_parts(&children[1]);
    assert_eq!(bkind, SyntaxKind::LeftParen);
    assert_eq!((bs, be), (0, 11));
    assert_eq!(atom_value(&bchildren[1]), "T");
    assert_eq!(atom_value(&children[2]), "P");

    let mut parser = Parser::new("forall (x : T), P");
    let r = parser.forall_term(ident_term).unwrap();
    assert_eq!(node_parts(&r).3.len(), 2);

    let mut parser = Parser::new("forall x P.");
    assert_eq!(expected_text(&parser.forall_term(ident_term)), "','");
}

#[test]
fn parenthesized_terms() {
    let mut parser = Parser::new("( x )");
    let r = parser.paren_term(ident_term).unwrap();
    assert_eq!(atom_value(&r), "x");
    assert_eq!(parser.position().offset, 5);

    let mut parser = Parser::new("( )");
    let r = parser.paren_term(ident_term).unwrap();
    let (kind, s, e, children) = node_parts(&r);
    assert_eq!(kind, SyntaxKind::App);
    assert_eq!((s, e), (0, 3));
    assert_eq!(atom_value(&children[0]), "Unit");
    assert_eq!(atom_value(&children[1]), "unit");

    let mut parser = Parser::new("(x y");
    assert_eq!(expected_text(&parser.paren_term(ident_term)), "')'");
    let mut parser = Parser::new("x");
    assert_eq!(expected_text(&parser.paren_term(ident_term)), "'('");
}

#[test]
fn anonymous_constructors() {
    let mut parser = Parser::new("⟨a, b , c⟩");
    let r = parser.anonymous_constructor(ident_term).unwrap();
    let (kind, s, e, children) = node_parts(&r);
    assert_eq!(kind, SyntaxKind::AnonymousConstructor);
    assert_eq!((s, e), (0, 14));
    let values: Vec<String> = children.iter().map(atom_value).collect();
    assert_eq!(values, vec!["a", "b", "c"]);

    let mut parser = Parser::new("⟨ ⟩");
    let r = parser.anonymous_constructor(ident_term).unwrap();
    assert_eq!(node_parts(&r).3.len(), 0);

    let mut parser = Parser::new("⟨a b⟩");
    assert_eq!(expected_text(&parser.anonymous_constructor(ident_term)), "'⟩'");
    let mut parser = Parser::new("⟨a, ⟩");
    assert!(parser.anonymous_constructor(ident_term).is_err());
}

#[test]
fn subtypes() {
    let mut parser = Parser::new("{x : T // P}");
    let r = parser.parse_subtype(ident_term, ident_term).unwrap();
    let (kind, s, e, children) = node_parts(&r);
    assert_eq!(kind, SyntaxKind::Subtype);
    assert_eq!((s, e), (0, 12));
    let values: Vec<String> = children.iter().map(atom_value).collect();
    assert_eq!(values, vec!["x", "T", "P"]);

    let mut parser = Parser::new("{x : T / P}");
    assert_eq!(expected_text(&parser.parse_subtype(ident_term, ident_term)), "//");
    let mut parser = Parser::new("{x : T // P");
    assert!(parser.parse_subtype(ident_term, ident_term).is_err());
}

#[test]
fn do_statements() {
    let mut parser = Parser::new("return x");
    let r = parser.do_return_stmt(ident_term).unwrap();
    let (kind, s, e, children) = node_parts(&r);
    assert_eq!(kind, SyntaxKind::Return);
    assert_eq!((s, e), (0, 8));
    assert_eq!(atom_value(&children[0]), "x");

    let mut parser = Parser::new("pure y");
    let r = parser.do_pure_stmt(ident_term).unwrap();
    assert_eq!(node_parts(&r).0, SyntaxKind::Return);
    let mut parser = Parser::new("pur y");
    assert_eq!(expected_text(&parser.do_pure_stmt(ident_term)), "keyword 'pure'");

    let mut parser = Parser::new("let x ← act");
    let r = parser.do_let_stmt(ident_term).unwrap();
    let (kind, _, e, children) = node_parts(&r);
    assert_eq!(kind, SyntaxKind::Bind);
    assert_eq!(e, 13);
    assert_eq!(atom_value(&children[1]), "act");

    let mut parser = Parser::new("let mut x : T <- act");
    let r = parser.do_let_stmt(ident_term).unwrap();
    let (kind, _, _, children) = node_parts(&r);
    assert_eq!(kind, SyntaxKind::Bind);
    assert_eq!(children.len(), 3);

    let mut parser = Parser::new("let x := v");
    let r = parser.do_let_stmt(ident_term).unwrap();
    assert_eq!(node_parts(&r).0, SyntaxKind::Let);
    let mut parser = Parser::new("let x = v");
    assert_eq!(expected_text(&parser.do_let_stmt(ident_term)), "':'");
}

#[test]
fn expression_statements() {
    let mut parser = Parser::new("x ← act");
    let r = parser.do_expr_stmt(ident_term).unwrap();
    let (kind, s, e, children) = node_parts(&r);
    assert_eq!(kind, SyntaxKind::Bind);
    assert_eq!((s, e), (0, 9));
    assert_eq!(atom_value(&children[0]), "x");
    assert_eq!(atom_value(&children[1]), "act");

    let mut parser = Parser::new("act more");
    let r = parser.do_expr_stmt(ident_term).unwrap();
    assert_eq!(atom_value(&r), "act");
    assert_eq!(parser.position().offset, 3);

    let mut parser = Parser::new("x <- 1");
    assert!(parser.do_expr_stmt(ident_term).is_ok());
    assert_eq!(parser.position().offset, 1);
}

#[test]
fn match_arms() {
    let mut parser = Parser::new("a if g => b");
    let r = parser.match_arm(ident_term, ident_term).unwrap();
    let (kind, s, e, children) = node_parts(&r);
    assert_eq!(kind, SyntaxKind::MatchArm);
    assert_eq!((s, e), (0, 11));
    let values: Vec<String> = children.iter().map(atom_value).collect();
    assert_eq!(values, vec!["a", "g", "b"]);

    let mut parser = Parser::new("a ⇒ b");
    let r = parser.match_arm(ident_term, ident_term).unwrap();
    assert_eq!(node_parts(&r).3.len(), 2);

    let mut parser = Parser::new("a -> b");
    assert_eq!(expected_text(&parser.match_arm(ident_term, ident_term)), "=> or ⇒");
}

#[test]
fn match_expressions() {
    let mut parser = Parser::new("match x with | a => b | c if g => d");
    let r = parser.match_expr(ident_term, ident_term).unwrap();
    let (kind, s, e, children) = node_parts(&r);
    assert_eq!(kind, SyntaxKind::Match);
    assert_eq!((s, e), (0, 35));
    assert_eq!(children.len(), 3);
    assert_eq!(atom_value(&children[0]), "x");
    assert_eq!(node_parts(&children[1]).0, SyntaxKind::MatchArm);
    assert_eq!(node_parts(&children[2]).3.len(), 3);

    let mut parser = Parser::new("match x with a => b");
    let r = parser.match_expr(ident_term, ident_term).unwrap();
    assert_eq!(node_parts(&r).3.len(), 2);

    let mut parser = Parser::new("match x wth | a => b");
    assert_eq!(expected_text(&parser.match_expr(ident_term, ident_term)), "keyword 'with'");
    let mut parser = Parser::new("match x with | a b");
    assert_eq!(expected_text(&parser.match_expr(ident_term, ident_term)), "=> or ⇒");
}

fn block_end(p: &Parser) -> bool {
    match p.peek() {
        None => true,
        Some(c) => c == '}' || c == ')',
    }
}

#[test]
fn do_blocks() {
    let text = "do let x ← a; return x";
    let mut parser = Parser::new(text);
    let r = parser.do_term(ident_term, block_end).unwrap();
    let (kind, s, e, children) = node_parts(&r);
    assert_eq!(kind, SyntaxKind::Do);
    assert_eq!((s, e), (0, 24));
    assert_eq!(children.len(), 2);
    assert_eq!(node_parts(&children[0]).0, SyntaxKind::Bind);
    assert_eq!(node_parts(&children[1]).0, SyntaxKind::Return);

    let mut parser = Parser::new("do\n  pure a\n  b ← c\n)");
    let r = parser.do_term(ident_term, block_end).unwrap();
    let (_, _, e, children) = node_parts(&r);
    assert_eq!(e, 22);
    assert_eq!(node_parts(&children[0]).0, SyntaxKind::Return);
    assert_eq!(node_parts(&children[1]).0, SyntaxKind::Bind);

    let mut parser = Parser::new("do )");
    let r = parser.do_term(ident_term, block_end).unwrap();
    assert_eq!(node_parts(&r).3.len(), 0);

    let mut parser = Parser::new("do let x = a");
    assert_eq!(expected_text(&parser.do_term(ident_term, block_end)), "':'");
    let mut parser = Parser::new("dont");
    assert_eq!(expected_text(&parser.do_term(ident_term, block_end)), "keyword 'do'");
}

#[test]
fn for_statements() {
    let mut parser = Parser::new("for x in xs do act");
    let r = parser.do_for_stmt(ident_term, block_end).unwrap();
    let (kind, s, e, children) = node_parts(&r);
    assert_eq!(kind, SyntaxKind::Do);
    assert_eq!((s, e), (0, 18));
    let values: Vec<String> = children.iter().map(atom_value).collect();
    assert_eq!(values, vec!["x", "xs", "act"]);

    let mut parser = Parser::new("for x in xs do { y }");
    assert_eq!(expected_text(&parser.do_for_stmt(ident_term, block_end)), "keyword 'do'");
    assert_eq!(parser.position().offset, 15);
    let mut parser = Parser::new("for x on xs do y");
    assert_eq!(expected_text(&parser.do_for_stmt(ident_term, block_end)), "keyword 'in'");

    let mut parser = Parser::new("do for i in is do y ← z");
    let r = parser.do_term(ident_term, block_end).unwrap();
    let (_, _, _, children) = node_parts(&r);
    assert_eq!(children.len(), 1);
    let (kind, _, _, inner) = node_parts(&children[0]);
    assert_eq!(kind, SyntaxKind::Do);
    assert_eq!(node_parts(&inner[2]).0, SyntaxKind::Bind);
}

#[test]
fn explicit_applications() {
    let mut parser = Parser::new("@f a b, c");
    let r = parser.explicit_application(ident_term).unwrap();
    let (kind, s, e, children) = node_parts(&r);
    assert_eq!(kind, SyntaxKind::ExplicitApp);
    assert_eq!((s, e), (0, 6));
    let values: Vec<String> = children.iter().map(atom_value).collect();
    assert_eq!(values, vec!["f", "a", "b"]);

    let mut parser = Parser::new("@f a 1");
    let r = parser.explicit_application(ident_term).unwrap();
    assert_eq!(node_parts(&r).3.len(), 2);
    assert_eq!(parser.position().offset, 5);

    let mut parser = Parser::new("f a");
    assert_eq!(expected_text(&parser.explicit_application(ident_term)), "'@'");
}

#[test]
fn implicit_terms() {
    let mut parser = Parser::new("{x : T // P}");
    let r = parser.implicit_term(ident_term, ident_term).unwrap();
    assert_eq!(node_parts(&r).0, SyntaxKind::Subtype);

    let mut parser = Parser::new("{x : T}");
    let r = parser.implicit_term(ident_term, ident_term).unwrap();
    let (kind, s, e, _) = node_parts(&r);
    assert_eq!(kind, SyntaxKind::LeftBrace);
    assert_eq!((s, e), (0, 7));

    let mut parser = Parser::new("[inst : Monad]");
    assert!(parser.inst_implicit_term(ident_term).is_ok());
}

#[test]
fn implicit_binder_span_counts_bytes() {
    let mut parser = Parser::new("{α : Type}");
    let r = parser.implicit_term(ident_term, ident_term).unwrap();
    match &r {
        Syntax::Node(n) => {
            assert_eq!(n.kind, SyntaxKind::LeftBrace);
            assert_eq!((n.range.start.line, n.range.start.column, n.range.start.offset), (1, 1, 0));
            assert_eq!((n.range.end.line, n.range.end.column, n.range.end.offset), (1, 11, 11));
            assert_eq!(atom_value(&n.children[0]), "α");
        }
        other => panic!("expected a node, got {:?}", other),
    }
}
