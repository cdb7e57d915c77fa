use lean_parser::error::{ParseErrorKind, ParserResult};
use lean_parser::parser::Parser;
use lean_parser::syntax::{Syntax, SyntaxKind, TriviaKind};

fn ident_term(p: &mut Parser) -> ParserResult<Syntax> {
    p.identifier()
}

fn attribute_list(p: &mut Parser) -> ParserResult<Syntax> {
    p.parse_attribute_list_syntax(ident_term)
}

fn def_parts(s: &Syntax) -> (SyntaxKind, usize, usize, &Vec<Syntax>) {
    match s {
        Syntax::Node(n) => (n.kind, n.range.start.offset, n.range.end.offset, &n.children),
        _ => panic!("expected a node, got {:?}", s),
    }
}

fn atom_value(s: &Syntax) -> String {
    match s {
        Syntax::Atom(a) => a.value.clone(),
        _ => panic!("expected an atom, got {:?}", s),
    }
}

fn expected_text(r: &ParserResult<Syntax>) -> String {
    match r {
        Err(e) => match &e.kind {
            ParseErrorKind::Expected(what) => what.clone(),
            other => panic!("expected an `Expected` error, got {:?}", other),
        },
        Ok(s) => panic!("expected an error, got {:?}", s),
    }
}

#[test]
fn plain_definitions() {
    let mut parser = Parser::new("def foo : Nat := x");
    let r = parser.def_command(attribute_list, ident_term).unwrap();
    let (kind, s, e, children) = def_parts(&r);
    assert_eq!(kind, SyntaxKind::Def);
    assert_eq!((s, e), (0, 18));
    assert_eq!(children.len(), 3);
    assert_eq!(atom_value(&children[0]), "foo");
    assert_eq!(atom_value(&children[1]), "Nat");
    assert_eq!(atom_value(&children[2]), "x");

    let mut parser = Parser::new("def foo := x");
    let r = parser.def_command(attribute_list, ident_term).unwrap();
    assert_eq!(def_parts(&r).3.len(), 2);
}

#[test]
fn definitions_with_attributes_and_trivia() {
    let text = "  -- c\n@[inline] def f (a : T) where w := v";
    let mut parser = Parser::new(text);
    let r = parser.def_command(attribute_list, ident_term).unwrap();
    let (_, s, e, children) = def_parts(&r);
    assert_eq!((s, e), (0, 43));
    assert_eq!(children.len(), 5);
    assert_eq!(def_parts(&children[0]).0, SyntaxKind::AttributeList);
    assert_eq!(atom_value(&children[1]), "f");
    assert_eq!(atom_value(&children[3]), "w");
    assert_eq!(atom_value(&children[4]), "v");
    match &r {
        Syntax::Node(n) => {
            assert!(n.leading_trivia.iter().any(|t| t.kind == TriviaKind::LineComment && t.text.starts_with("-- c")));
        },
        _ => unreachable!(),
    }
}

#[test]
fn definition_errors() {
    let mut parser = Parser::new("theorem t := x");
    assert_eq!(expected_text(&parser.def_command(attribute_list, ident_term)), "keyword 'def'");
    let mut parser = Parser::new("def f x");
    assert_eq!(expected_text(&parser.def_command(attribute_list, ident_term)), "':'");
    let mut parser = Parser::new("def f : T : x");
    assert_eq!(expected_text(&parser.def_command(attribute_list, ident_term)), "'='");
    let mut parser = Parser::new("def 1 := x");
    assert_eq!(expected_text(&parser.def_command(attribute_list, ident_term)), "identifier");
    let mut parser = Parser::new("def f := 1");
    assert!(parser.def_command(attribute_list, ident_term).is_err());
}

fn number_term(p: &mut Parser) -> ParserResult<Syntax> {
    p.number()
}

#[test]
fn test_trivia_attachment_to_nodes() {
    let input = "  \n-- Comment\ndef foo := 42";
    let mut parser = Parser::new(input);

    let result = parser.def_command(attribute_list, number_term).unwrap();

    if let Syntax::Node(node) = result {
        assert!(!node.leading_trivia.is_empty(), "Definition node should have leading trivia");
        let trivia_text: String = node.leading_trivia.iter().map(|t| t.text.as_str()).collect();
        assert!(trivia_text.contains("-- Comment"), "Should contain line comment");
    } else {
        panic!("Expected definition node, got: {:?}", result);
    }
}

fn ident_or_number(p: &mut Parser) -> ParserResult<Syntax> {
    match p.peek() {
        Some(c) if c.is_ascii_digit() => p.number(),
        _ => p.identifier(),
    }
}

#[test]
fn test_trivia_in_expressions() {
    let input = "  /- comment -/ def  hello : Nat := 42";
    let mut parser = Parser::new(input);

    let result = parser.def_command(attribute_list, ident_or_number).unwrap();

    if let Syntax::Node(node) = &result {
        assert!(!node.leading_trivia.is_empty(), "Node should have leading trivia");
        if let Some(Syntax::Atom(def_atom)) = node.children.first() {
            assert!(!def_atom.leading_trivia.is_empty(), "Def keyword should have leading trivia");
        }
    } else {
        panic!("Expected node, got: {:?}", result);
    }
}
