use lean_parser::error::{ParseErrorKind, ParserResult};
use lean_parser::parser::Parser;
use lean_parser::syntax::{Syntax, SyntaxKind};

fn ident_term(p: &mut Parser) -> ParserResult<Syntax> {
    p.identifier()
}

fn number_term(p: &mut Parser) -> ParserResult<Syntax> {
    p.number()
}

fn list_parts(s: &Syntax) -> (SyntaxKind, usize, usize, usize) {
    match s {
        Syntax::Node(n) => (n.kind, n.range.start.offset, n.range.end.offset, n.children.len()),
        _ => panic!("expected a node, got {:?}", s),
    }
}

fn expected_text(r: &ParserResult<Syntax>) -> String {
    match r {
        Err(e) => match &e.kind {
            ParseErrorKind::Expected(what) => what.clone(),
            other => panic!("expected an `Expected` error, got {:?}", other),
        },
        Ok(s) => panic!("expected an error, got {:?}", s),
    }
}

#[test]
fn empty_and_comma_lists() {
    let mut parser = Parser::new("[ ]");
    let list = parser.bracket_term(ident_term).unwrap();
    assert_eq!(list_parts(&list), (SyntaxKind::List, 0, 3, 0));

    let mut parser = Parser::new("[a, b , c]");
    let list = parser.bracket_term(ident_term).unwrap();
    assert_eq!(list_parts(&list), (SyntaxKind::List, 0, 10, 3));
    assert_eq!(parser.position().offset, 10);
}

#[test]
fn a_lone_number_is_a_list() {
    let mut parser = Parser::new("[42]");
    let list = parser.bracket_term(number_term).unwrap();
    assert_eq!(list_parts(&list), (SyntaxKind::List, 0, 4, 1));
}

#[test]
fn otherwise_a_binder_is_read_from_inside_the_bracket() {
    // A lone identifier, two identifiers, or an element followed by
    // something else is no list; the binder parser then starts after `[`,
    // where no binder bracket stands.
    let mut parser = Parser::new("[a]");
    assert_eq!(expected_text(&parser.bracket_term(ident_term)), "binder");
    assert_eq!(parser.position().offset, 1);

    let mut parser = Parser::new("[Monad m]");
    assert_eq!(expected_text(&parser.bracket_term(ident_term)), "binder");

    let mut parser = Parser::new("[a, b c]");
    assert_eq!(expected_text(&parser.bracket_term(ident_term)), "binder");

    let mut parser = Parser::new("[1, x]");
    assert_eq!(expected_text(&parser.bracket_term(number_term)), "binder");
}

#[test]
fn bracket_needs_an_opening_bracket() {
    let mut parser = Parser::new("(a)");
    assert_eq!(expected_text(&parser.bracket_term(ident_term)), "'['");
    assert_eq!(parser.position().offset, 0);
}

#[test]
fn peeking_ahead() {
    let parser = Parser::new("a+b");
    assert_eq!(parser.peek_chars(2), "a+");
    assert_eq!(parser.peek_chars(10), "a+b");
    assert_eq!(parser.peek_chars_pattern(1), "a");
    assert!(parser.at_line_start());
    assert!(!parser.at_term_boundary());

    let mut parser = Parser::new("x\n⟩");
    parser.advance();
    parser.advance();
    assert!(parser.at_line_start());
    assert!(parser.at_term_boundary());
    parser.advance();
    assert!(parser.at_term_boundary());
}

#[test]
fn cdot_placeholder_atom() {
    let mut parser = Parser::new("· x");
    let atom = parser.cdot_placeholder().unwrap();
    match atom {
        Syntax::Atom(a) => {
            assert_eq!(a.value, "·");
            assert_eq!((a.range.start.offset, a.range.end.offset), (0, 2));
        },
        other => panic!("expected an atom, got {:?}", other),
    }
    let mut parser = Parser::new(".");
    assert_eq!(expected_text(&parser.cdot_placeholder()), "'·'");
}

fn ident_atom(p: &mut Parser) -> ParserResult<Syntax> {
    p.identifier()
}

fn plus_op(p: &Parser) -> bool {
    p.peek() == Some('+')
}

fn node_of(s: &Syntax) -> (SyntaxKind, usize, usize, &Vec<Syntax>) {
    match s {
        Syntax::Node(n) => (n.kind, n.range.start.offset, n.range.end.offset, &n.children),
        _ => panic!("expected a node, got {:?}", s),
    }
}

fn value_of(s: &Syntax) -> String {
    match s {
        Syntax::Atom(a) => a.value.clone(),
        _ => panic!("expected an atom, got {:?}", s),
    }
}

#[test]
fn field_and_numeric_projections() {
    let mut parser = Parser::new("p.fst.2");
    let p = parser.identifier().unwrap();
    let r = parser.parse_projections(p, ident_atom, plus_op).unwrap();
    let (kind, s, e, children) = node_of(&r);
    assert_eq!(kind, SyntaxKind::Projection);
    assert_eq!((s, e), (5, 7));
    assert_eq!(value_of(&children[1]), "2");
    let (inner, s1, e1, first) = node_of(&children[0]);
    assert_eq!(inner, SyntaxKind::Projection);
    assert_eq!((s1, e1), (1, 5));
    assert_eq!(value_of(&first[0]), "p");
    assert_eq!(value_of(&first[1]), "fst");
    assert_eq!(parser.position().offset, 7);
}

#[test]
fn method_calls_take_arguments_up_to_an_operator() {
    let mut parser = Parser::new("xs.map f g + 1");
    let xs = parser.identifier().unwrap();
    let r = parser.parse_projections(xs, ident_atom, plus_op).unwrap();
    let (kind, s, e, children) = node_of(&r);
    assert_eq!(kind, SyntaxKind::App);
    assert_eq!((s, e), (2, 11));
    assert_eq!(children.len(), 4);
    assert_eq!(value_of(&children[1]), "map");
    assert_eq!(value_of(&children[3]), "g");
    assert_eq!(parser.position().offset, 11);

    let mut parser = Parser::new("a.b)");
    let a = parser.identifier().unwrap();
    let r = parser.parse_projections(a, ident_atom, plus_op).unwrap();
    let (kind, _, e, children) = node_of(&r);
    assert_eq!(kind, SyntaxKind::Projection);
    assert_eq!(e, 3);
    assert_eq!(children.len(), 2);
}

#[test]
fn projection_edge_cases() {
    let mut parser = Parser::new("x..y");
    let x = parser.identifier().unwrap();
    let r = parser.parse_projections(x, ident_atom, plus_op).unwrap();
    assert_eq!(value_of(&r), "x");
    assert_eq!(parser.position().offset, 1);

    let mut parser = Parser::new("x.(");
    let x = parser.identifier().unwrap();
    assert_eq!(expected_text(&parser.parse_projections(x, ident_atom, plus_op)), "field name or number");

    let mut parser = Parser::new("x.0x");
    let x = parser.identifier().unwrap();
    let r = parser.parse_projections(x, ident_atom, plus_op);
    assert!(matches!(r, Err(e) if matches!(&e.kind, ParseErrorKind::Custom(m) if m == "hexadecimal literal must have at least one digit")));
}

#[test]
fn applications_collect_arguments() {
    let mut parser = Parser::new("f x y");
    let r = parser.app_term(ident_atom, plus_op).unwrap();
    let (kind, s, e, children) = node_of(&r);
    assert_eq!(kind, SyntaxKind::App);
    assert_eq!((s, e), (0, 5));
    assert_eq!(children.len(), 3);
    assert_eq!(value_of(&children[2]), "y");

    let mut parser = Parser::new("f x.1 y");
    let r = parser.app_term(ident_atom, plus_op).unwrap();
    let (_, _, _, children) = node_of(&r);
    assert_eq!(children.len(), 3);
    let (kind, _, _, _) = node_of(&children[1]);
    assert_eq!(kind, SyntaxKind::Projection);
}

#[test]
fn applications_stop_at_keywords_and_assignment() {
    let mut parser = Parser::new("f x then y");
    let r = parser.app_term(ident_atom, plus_op).unwrap();
    let (_, s, e, children) = node_of(&r);
    assert_eq!((s, e), (0, 4));
    assert_eq!(children.len(), 2);
    assert_eq!(parser.position().offset, 4);

    let mut parser = Parser::new("f := 1");
    let r = parser.app_term(ident_atom, plus_op).unwrap();
    assert_eq!(value_of(&r), "f");
    assert_eq!(parser.position().offset, 2);

    let mut parser = Parser::new("f");
    assert_eq!(value_of(&parser.app_term(ident_atom, plus_op).unwrap()), "f");
}

#[test]
fn applications_stop_where_an_argument_fails() {
    let mut parser = Parser::new("f (");
    let r = parser.app_term(ident_atom, plus_op).unwrap();
    assert_eq!(value_of(&r), "f");
    assert_eq!(parser.position().offset, 2);

    let mut parser = Parser::new("f x.(");
    let r = parser.app_term(ident_atom, plus_op).unwrap();
    assert_eq!(value_of(&r), "f");
    assert_eq!(parser.position().offset, 2);

    let mut parser = Parser::new("1");
    assert_eq!(expected_text(&parser.app_term(ident_atom, plus_op)), "identifier");
    let mut parser = Parser::new("f.(");
    assert_eq!(expected_text(&parser.app_term(ident_atom, plus_op)), "field name or number");
}

#[test]
fn test_instance_implicit() {
    // Two identifiers make no list, so the binder parser starts after `[`,
    // where no binder bracket stands.
    let mut parser = Parser::new("[Monad m]");
    let err = parser.bracket_term(ident_term).unwrap_err();
    match &err.kind {
        ParseErrorKind::Expected(m) => assert_eq!(m, "binder"),
        other => panic!("unexpected error {:?}", other),
    }
    assert_eq!((err.position.line, err.position.column, err.position.offset), (1, 2, 1));
}
