use lean_parser::error::{ParseErrorKind, ParserResult};
use lean_parser::parser::Parser;
use lean_parser::syntax::{Syntax, SyntaxKind};

/// A stand-in term reader for values in parentheses: the text up to the
/// next `)` as one atom.
fn up_to_paren(p: &mut Parser) -> ParserResult<Syntax> {
    let start = p.position();
    let text = p.consume_while(|c| c != ')');
    let range = p.input().range_from(start);
    Ok(p.create_atom(range, text))
}

fn parse_attr(input: &str) -> ParserResult<Syntax> {
    let mut parser = Parser::new(input);
    parser.parse_attribute_list_syntax(up_to_paren)
}

fn node_parts(s: &Syntax) -> (SyntaxKind, usize, usize, &Vec<Syntax>) {
    match s {
        Syntax::Node(n) => (n.kind, n.range.start.offset, n.range.end.offset, &n.children),
        _ => panic!("expected a node, got {:?}", s),
    }
}

fn atom_value(s: &Syntax) -> String {
    match s {
        Syntax::Atom(a) => a.value.clone(),
        _ => panic!("expected an atom, got {:?}", s),
    }
}

fn expected_text<T: std::fmt::Debug>(r: &ParserResult<T>) -> String {
    match r {
        Err(e) => match &e.kind {
            ParseErrorKind::Expected(what) => what.clone(),
            other => panic!("expected an `Expected` error, got {:?}", other),
        },
        Ok(s) => panic!("expected an error, got {:?}", s),
    }
}

#[test]
fn test_simple_attribute() {
    let result = parse_attr("@[inline]").unwrap();
    assert!(matches!(result, Syntax::Node(_)));
}

#[test]
fn test_attribute_with_value() {
    let result = parse_attr("@[simp, inline]").unwrap();
    assert!(matches!(result, Syntax::Node(_)));
}

#[test]
fn test_attribute_with_assignment() {
    let result = parse_attr("@[priority := 100]").unwrap();
    assert!(matches!(result, Syntax::Node(_)));
}

#[test]
fn test_multiple_attributes() {
    let result = parse_attr("@[simp, inline, reducible]").unwrap();
    assert!(matches!(result, Syntax::Node(_)));
}

#[test]
fn test_attribute_with_string_value() {
    let result = parse_attr(r#"@[doc "This is a docstring"]"#).unwrap();
    assert!(matches!(result, Syntax::Node(_)));
}

#[test]
fn test_attribute_with_parenthesized_expr() {
    let result = parse_attr("@[priority (10 + 5)]").unwrap();
    assert!(matches!(result, Syntax::Node(_)));
}

#[test]
fn attribute_list_structure() {
    let result = parse_attr("@[simp, priority := 100]").unwrap();
    let (kind, start, end, attrs) = node_parts(&result);
    assert_eq!(kind, SyntaxKind::AttributeList);
    assert_eq!((start, end), (0, 24));
    assert_eq!(attrs.len(), 2);
    let (k0, s0, e0, first) = node_parts(&attrs[0]);
    assert_eq!(k0, SyntaxKind::Attribute);
    assert_eq!((s0, e0), (2, 6));
    assert_eq!(first.len(), 1);
    assert_eq!(atom_value(&first[0]), "simp");
    let (_, s1, e1, second) = node_parts(&attrs[1]);
    assert_eq!((s1, e1), (8, 23));
    assert_eq!(second.len(), 2);
    assert_eq!(atom_value(&second[0]), "priority");
    assert_eq!(atom_value(&second[1]), "100");
}

#[test]
fn attribute_values_of_each_kind() {
    let result = parse_attr("@[doc \"a\\nb\", mark 'x', tag name, prio (1 + 2)]").unwrap();
    let (_, _, _, attrs) = node_parts(&result);
    assert_eq!(attrs.len(), 4);
    let values: Vec<String> = attrs
        .iter()
        .map(|a| {
            let (_, _, _, cs) = node_parts(a);
            atom_value(&cs[1])
        })
        .collect();
    assert_eq!(values, vec!["a\nb", "x", "name", "1 + 2"]);
}

#[test]
fn attribute_without_value_spans_trailing_space() {
    let result = parse_attr("@[inline ]").unwrap();
    let (_, _, end, attrs) = node_parts(&result);
    assert_eq!(end, 10);
    let (_, s, e, _) = node_parts(&attrs[0]);
    assert_eq!((s, e), (2, 9));

    let result = parse_attr("@[]").unwrap();
    let (_, _, _, attrs) = node_parts(&result);
    assert!(attrs.is_empty());
}

#[test]
fn attribute_errors() {
    assert_eq!(expected_text(&parse_attr("@[simp inline extra]")), ", or ]");
    assert_eq!(expected_text(&parse_attr("@[1]")), "identifier");
    assert_eq!(expected_text(&parse_attr("@[a := ]")), "attribute value");
    assert_eq!(expected_text(&parse_attr("[a]")), "'@'");
    assert_eq!(expected_text(&parse_attr("@a")), "'['");
    assert!(matches!(parse_attr("@[p (1 2]"), Err(e) if matches!(e.kind, ParseErrorKind::UnexpectedEof)));
    assert_eq!(expected_text(&parse_attr("@[a")), ", or ]");
    let mut parser = Parser::new("@[p (x y)]");
    let result = parser.parse_attribute_list_syntax(|p: &mut Parser| p.identifier());
    assert_eq!(expected_text(&result), "')'");
    assert_eq!(parser.position().offset, 7);
}

#[test]
fn several_attribute_lists() {
    let mut parser = Parser::new("@[a] @[b, c] def");
    let lists = parser.parse_attribute_list(up_to_paren).unwrap();
    assert_eq!(lists.len(), 2);
    let (_, s, e, attrs) = node_parts(&lists[1]);
    assert_eq!((s, e), (5, 12));
    assert_eq!(attrs.len(), 2);
    assert_eq!(parser.position().offset, 13);

    let mut parser = Parser::new("def");
    assert!(parser.parse_attribute_list(up_to_paren).unwrap().is_empty());
    assert_eq!(parser.position().offset, 0);
}
