use lean_parser::error::{ParseErrorKind, ParserResult};
use lean_parser::parser::Parser;
use lean_parser::syntax::{Syntax, SyntaxKind};

fn ident_pattern(p: &mut Parser) -> ParserResult<Syntax> {
    p.identifier()
}

fn node_parts(s: &Syntax) -> (SyntaxKind, usize, usize, &Vec<Syntax>) {
    match s {
        Syntax::Node(n) => (n.kind, n.range.start.offset, n.range.end.offset, &n.children),
        _ => panic!("expected a node, got {:?}", s),
    }
}

fn atom_value(s: &Syntax) -> String {
    match s {
        Syntax::Atom(a) => a.value.clone(),
        _ => panic!("expected an atom, got {:?}", s),
    }
}

fn expected_text(r: &ParserResult<Syntax>) -> String {
    match r {
        Err(e) => match &e.kind {
            ParseErrorKind::Expected(what) => what.clone(),
            other => panic!("expected an `Expected` error, got {:?}", other),
        },
        Ok(s) => panic!("expected an error, got {:?}", s),
    }
}

#[test]
fn wildcard_and_literal_patterns() {
    let mut parser = Parser::new("_ x");
    let w = parser.wildcard_pattern().unwrap();
    let (kind, s, e, children) = node_parts(&w);
    assert_eq!(kind, SyntaxKind::WildcardPattern);
    assert_eq!((s, e), (0, 1));
    assert!(children.is_empty());

    let mut parser = Parser::new("42");
    assert_eq!(atom_value(&parser.literal_pattern().unwrap()), "42");
    let mut parser = Parser::new("'c'");
    assert_eq!(atom_value(&parser.literal_pattern().unwrap()), "c");
    let mut parser = Parser::new("\"s\"");
    assert_eq!(atom_value(&parser.literal_pattern().unwrap()), "s");
    let mut parser = Parser::new("x");
    assert_eq!(expected_text(&parser.literal_pattern()), "literal pattern");
    assert_eq!(parser.position().offset, 0);
}

#[test]
fn list_patterns() {
    let mut parser = Parser::new("[ ]");
    let l = parser.list_pattern(ident_pattern).unwrap();
    let (kind, s, e, children) = node_parts(&l);
    assert_eq!(kind, SyntaxKind::ConstructorPattern);
    assert_eq!((s, e), (0, 3));
    assert_eq!(children.len(), 1);
    assert_eq!(atom_value(&children[0]), "[]");

    let mut parser = Parser::new("[x, y]");
    let l = parser.list_pattern(ident_pattern).unwrap();
    let (_, _, e, children) = node_parts(&l);
    assert_eq!(e, 6);
    assert_eq!(children.len(), 2);
    assert_eq!(atom_value(&children[1]), "y");

    let mut parser = Parser::new("[x y]");
    assert_eq!(expected_text(&parser.list_pattern(ident_pattern)), ", or ]");
    let mut parser = Parser::new("[x, ]");
    assert_eq!(expected_text(&parser.list_pattern(ident_pattern)), "identifier");
}

#[test]
fn paren_patterns() {
    let mut parser = Parser::new("()");
    let u = parser.paren_pattern(ident_pattern).unwrap();
    let (kind, _, e, children) = node_parts(&u);
    assert_eq!(kind, SyntaxKind::ConstructorPattern);
    assert_eq!(e, 2);
    let (app, _, _, parts) = node_parts(&children[0]);
    assert_eq!(app, SyntaxKind::App);
    assert_eq!(atom_value(&parts[0]), "Unit");
    assert_eq!(atom_value(&parts[1]), "unit");

    let mut parser = Parser::new("( x )");
    let p = parser.paren_pattern(ident_pattern).unwrap();
    assert_eq!(atom_value(&p), "x");
    assert_eq!(parser.position().offset, 5);

    let mut parser = Parser::new("(a, b, c)");
    let t = parser.paren_pattern(ident_pattern).unwrap();
    let (kind, _, e, children) = node_parts(&t);
    assert_eq!(kind, SyntaxKind::TuplePattern);
    assert_eq!(e, 9);
    assert_eq!(children.len(), 3);

    let mut parser = Parser::new("(a, b,)");
    let t = parser.paren_pattern(ident_pattern).unwrap();
    let (_, _, _, children) = node_parts(&t);
    assert_eq!(children.len(), 2);

    let mut parser = Parser::new("(a b)");
    assert_eq!(expected_text(&parser.paren_pattern(ident_pattern)), "')'");
    let mut parser = Parser::new("(a, b");
    assert!(matches!(parser.paren_pattern(ident_pattern), Err(e) if matches!(e.kind, ParseErrorKind::UnexpectedEof)));
}
