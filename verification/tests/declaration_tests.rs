use lean_parser::error::{ParseErrorKind, ParserResult};
use lean_parser::parser::Parser;
use lean_parser::syntax::{Syntax, SyntaxKind};
use lean_parser::declarations::ItemKind;

fn ident_term(p: &mut Parser) -> ParserResult<Syntax> {
    p.identifier()
}

fn node_parts(s: &Syntax) -> (SyntaxKind, usize, usize, &Vec<Syntax>) {
    match s {
        Syntax::Node(n) => (n.kind, n.range.start.offset, n.range.end.offset, &n.children),
        _ => panic!("expected a node, got {:?}", s),
    }
}

fn atom_value(s: &Syntax) -> String {
    match s {
        Syntax::Atom(a) => a.value.clone(),
        _ => panic!("expected an atom, got {:?}", s),
    }
}

fn expected_text(r: &ParserResult<Syntax>) -> String {
    match r {
        Err(e) => match &e.kind {
            ParseErrorKind::Expected(what) => what.clone(),
            other => panic!("expected an `Expected` error, got {:?}", other),
        },
        Ok(s) => panic!("expected an error, got {:?}", s),
    }
}

#[test]
fn command_keywords() {
    assert!(Parser::new("def x").is_at_command_keyword());
    assert!(Parser::new("macro_rules").is_at_command_keyword());
    assert!(Parser::new("deriving Repr").is_at_command_keyword());
    assert!(!Parser::new("define").is_at_command_keyword());
    assert!(!Parser::new("x").is_at_command_keyword());
}

#[test]
fn constants_and_axioms() {
    let mut parser = Parser::new("constant c : T");
    let r = parser.constant_command(ident_term).unwrap();
    let (kind, s, e, children) = node_parts(&r);
    assert_eq!(kind, SyntaxKind::Constant);
    assert_eq!((s, e), (0, 14));
    assert_eq!(atom_value(&children[0]), "c");
    assert_eq!(atom_value(&children[1]), "T");

    let mut parser = Parser::new("axiom ax : P");
    let r = parser.axiom_command(ident_term).unwrap();
    let (kind, _, _, children) = node_parts(&r);
    assert_eq!(kind, SyntaxKind::Axiom);
    assert_eq!(atom_value(&children[0]), "ax");

    let mut parser = Parser::new("constant c T");
    assert_eq!(expected_text(&parser.constant_command(ident_term)), "':'");
    let mut parser = Parser::new("constant 1 : T");
    assert_eq!(expected_text(&parser.constant_command(ident_term)), "identifier");
    let mut parser = Parser::new("axioms a : P");
    assert_eq!(expected_text(&parser.axiom_command(ident_term)), "keyword 'axiom'");
}

#[test]
fn structure_fields_and_deriving() {
    let mut parser = Parser::new("x : Nat");
    let r = parser.structure_field(ident_term).unwrap();
    let (kind, s, e, children) = node_parts(&r);
    assert_eq!(kind, SyntaxKind::Field);
    assert_eq!((s, e), (0, 7));
    assert_eq!(atom_value(&children[1]), "Nat");

    let mut parser = Parser::new("deriving Repr, BEq");
    let r = parser.deriving_clause().unwrap();
    let (kind, s, e, children) = node_parts(&r);
    assert_eq!(kind, SyntaxKind::Deriving);
    assert_eq!((s, e), (0, 18));
    assert_eq!(children.len(), 2);
    assert_eq!(atom_value(&children[1]), "BEq");

    let mut parser = Parser::new("deriving Repr,");
    assert_eq!(expected_text(&parser.deriving_clause()), "identifier");
}

#[test]
fn binder_groups_in_a_row() {
    let mut parser = Parser::new("(a) {b} [c : C] rest");
    let binders = parser.parse_binders(ident_term).unwrap();
    assert_eq!(binders.len(), 3);
    assert_eq!(parser.position().offset, 16);
    let (kind, _, _, _) = node_parts(&binders[2]);
    assert_eq!(kind, SyntaxKind::LeftBracket);

    let mut parser = Parser::new("x");
    assert!(parser.parse_binders(ident_term).unwrap().is_empty());

    let mut parser = Parser::new("(a) [1]");
    assert_eq!(expected_text(&Err::<Syntax, _>(parser.parse_binders(ident_term).unwrap_err())), "instance implicit term");
}

#[test]
fn variables_theorems_and_examples() {
    let mut parser = Parser::new("variable {a : Type} (x : a)");
    let r = parser.variable_command(ident_term).unwrap();
    let (kind, s, e, children) = node_parts(&r);
    assert_eq!(kind, SyntaxKind::Variable);
    assert_eq!((s, e), (0, 27));
    assert_eq!(children.len(), 2);

    let mut parser = Parser::new("theorem foo (x : T) : P := h");
    let r = parser.theorem_command(ident_term).unwrap();
    let (kind, _, e, children) = node_parts(&r);
    assert_eq!(kind, SyntaxKind::Theorem);
    assert_eq!(e, 28);
    assert_eq!(children.len(), 4);
    assert_eq!(atom_value(&children[0]), "foo");
    assert_eq!(atom_value(&children[2]), "P");
    assert_eq!(atom_value(&children[3]), "h");

    let mut parser = Parser::new("example : P := h");
    let r = parser.example_command(ident_term).unwrap();
    let (kind, _, _, children) = node_parts(&r);
    assert_eq!(kind, SyntaxKind::Theorem);
    assert_eq!(children.len(), 2);

    let mut parser = Parser::new("theorem foo : P h");
    assert_eq!(expected_text(&parser.theorem_command(ident_term)), ":=");
    let mut parser = Parser::new("theorem foo : P :h");
    assert_eq!(expected_text(&parser.theorem_command(ident_term)), "'='");
    let mut parser = Parser::new("theorem foo P := h");
    assert_eq!(expected_text(&parser.theorem_command(ident_term)), "':'");
}

#[test]
fn abbreviations() {
    let mut parser = Parser::new("abbrev N := Nat");
    let r = parser.abbrev_command(ident_term).unwrap();
    let (kind, s, e, children) = node_parts(&r);
    assert_eq!(kind, SyntaxKind::Abbrev);
    assert_eq!((s, e), (0, 15));
    assert_eq!(children.len(), 2);
    assert_eq!(atom_value(&children[1]), "Nat");

    let mut parser = Parser::new("abbrev F (a) : T := B");
    let r = parser.abbrev_command(ident_term).unwrap();
    let (_, _, _, children) = node_parts(&r);
    assert_eq!(children.len(), 4);
    assert_eq!(atom_value(&children[2]), "T");
    assert_eq!(atom_value(&children[3]), "B");

    let mut parser = Parser::new("abbrev N Nat");
    assert_eq!(expected_text(&parser.abbrev_command(ident_term)), ":=");
    assert_eq!(parser.position().offset, 9);
}

#[test]
fn inductive_constructors() {
    let mut parser = Parser::new("mk : T");
    let r = parser.inductive_constructor(ident_term).unwrap();
    let (kind, s, e, children) = node_parts(&r);
    assert_eq!(kind, SyntaxKind::Constructor);
    assert_eq!((s, e), (0, 6));
    assert_eq!(children.len(), 2);

    let mut parser = Parser::new("nil | cons");
    let r = parser.inductive_constructor(ident_term).unwrap();
    let (_, _, e, children) = node_parts(&r);
    assert_eq!(e, 4);
    assert_eq!(children.len(), 1);
    assert_eq!(atom_value(&children[0]), "nil");
}

#[test]
fn instances() {
    let mut parser = Parser::new("instance : C := v");
    let r = parser.instance_command(ident_term, ident_term).unwrap();
    let (kind, _, e, children) = node_parts(&r);
    assert_eq!(kind, SyntaxKind::Instance);
    assert_eq!(e, 17);
    assert_eq!(children.len(), 2);

    let mut parser = Parser::new("instance foo : C := v");
    let r = parser.instance_command(ident_term, ident_term).unwrap();
    let (_, _, _, children) = node_parts(&r);
    assert_eq!(children.len(), 3);
    assert_eq!(atom_value(&children[0]), "foo");

    let mut parser = Parser::new("instance : C where");
    let r = parser.instance_command(ident_term, ident_term).unwrap();
    let (_, _, _, children) = node_parts(&r);
    assert_eq!(atom_value(&children[1]), "where");

    let mut parser = Parser::new("instance : C = v");
    assert_eq!(expected_text(&parser.instance_command(ident_term, ident_term)), ":=");
}

#[test]
fn items_of_a_body() {
    let mut parser = Parser::new("a : T b : U def");
    let items = parser.parse_items(ItemKind::Field, ident_term).unwrap();
    assert_eq!(items.len(), 2);
    assert_eq!(parser.position().offset, 12);
    let (kind, _, _, children) = node_parts(&items[1]);
    assert_eq!(kind, SyntaxKind::Field);
    assert_eq!(atom_value(&children[0]), "b");

    let mut parser = Parser::new("| nil | cons : T");
    let items = parser.parse_items(ItemKind::Constructor, ident_term).unwrap();
    assert_eq!(items.len(), 2);
    let (_, _, _, children) = node_parts(&items[1]);
    assert_eq!(atom_value(&children[0]), "cons");
    assert_eq!(atom_value(&children[1]), "T");

    let mut parser = Parser::new("a T");
    assert!(parser.parse_items(ItemKind::Field, ident_term).is_err());
    let mut parser = Parser::new("theorem t");
    assert_eq!(parser.parse_items(ItemKind::Field, ident_term).unwrap().len(), 0);
}

#[test]
fn structures() {
    let text = "structure Point (a : Type) where\n  x : a\n  y : a\nderiving Repr";
    let mut parser = Parser::new(text);
    let r = parser.structure_command(ident_term, ident_term).unwrap();
    let (kind, s, e, children) = node_parts(&r);
    assert_eq!(kind, SyntaxKind::Structure);
    assert_eq!((s, e), (0, 62));
    assert_eq!(children.len(), 5);
    assert_eq!(atom_value(&children[0]), "Point");
    assert_eq!(node_parts(&children[2]).0, SyntaxKind::Field);
    assert_eq!(node_parts(&children[3]).0, SyntaxKind::Field);
    assert_eq!(node_parts(&children[4]).0, SyntaxKind::Deriving);

    let mut parser = Parser::new("structure B extends A where x : T");
    let r = parser.structure_command(ident_term, ident_term).unwrap();
    let (_, _, _, children) = node_parts(&r);
    assert_eq!(children.len(), 3);
    assert_eq!(atom_value(&children[1]), "A");

    let mut parser = Parser::new("structure S x : T");
    assert_eq!(expected_text(&parser.structure_command(ident_term, ident_term)), "keyword 'where'");
    let mut parser = Parser::new("structure S extends 1 where");
    assert!(parser.structure_command(ident_term, ident_term).is_err());
}

#[test]
fn classes() {
    let mut parser = Parser::new("class Foo (a : Type) extends Bar where f : a");
    let r = parser.class_command(ident_term, ident_term).unwrap();
    let (kind, _, _, children) = node_parts(&r);
    assert_eq!(kind, SyntaxKind::Class);
    assert_eq!(children.len(), 4);
    assert_eq!(atom_value(&children[2]), "Bar");
    assert_eq!(node_parts(&children[3]).0, SyntaxKind::Field);

    let mut parser = Parser::new("class C");
    let r = parser.class_command(ident_term, ident_term).unwrap();
    let (_, s, e, children) = node_parts(&r);
    assert_eq!((s, e), (0, 7));
    assert_eq!(children.len(), 1);

    let mut parser = Parser::new("class C deriving Repr");
    let r = parser.class_command(ident_term, ident_term).unwrap();
    let (_, _, _, children) = node_parts(&r);
    assert_eq!(children.len(), 1);
    assert_eq!(parser.position().offset, 8);
}

#[test]
fn inductive_types() {
    let text = "inductive Color where\n  | red\n  | green\nderiving Repr";
    let mut parser = Parser::new(text);
    let r = parser.inductive_command(ident_term).unwrap();
    let (kind, s, e, children) = node_parts(&r);
    assert_eq!(kind, SyntaxKind::Inductive);
    assert_eq!((s, e), (0, 53));
    assert_eq!(children.len(), 4);
    assert_eq!(atom_value(&children[0]), "Color");
    assert_eq!(node_parts(&children[1]).0, SyntaxKind::Constructor);
    assert_eq!(node_parts(&children[3]).0, SyntaxKind::Deriving);

    let mut parser = Parser::new("inductive T : Type where | a : T");
    let r = parser.inductive_command(ident_term).unwrap();
    let (_, _, _, children) = node_parts(&r);
    assert_eq!(children.len(), 3);
    assert_eq!(atom_value(&children[1]), "Type");

    let mut parser = Parser::new("inductive E");
    let r = parser.inductive_command(ident_term).unwrap();
    assert_eq!(node_parts(&r).3.len(), 1);

    let mut parser = Parser::new("inductives E");
    assert_eq!(expected_text(&parser.inductive_command(ident_term)), "keyword 'inductive'");
}

fn no_operator(_p: &Parser) -> bool {
    false
}

#[test]
fn test_error_recovery_suggestions() {
    // `simp` reads as an identifier: valid syntax.
    let result = Parser::new("theorem foo : True := simp").theorem_command(ident_term);
    assert!(result.is_ok());

    // An incomplete theorem.
    let result = Parser::new("theorem foo : True :=").theorem_command(ident_term);
    assert!(result.is_err());

    // A tactic without `by` reads as an application.
    let result = Parser::new("exact h").app_term(ident_term, no_operator);
    assert!(result.is_ok());
}

fn attribute_list(p: &mut Parser) -> ParserResult<Syntax> {
    p.parse_attribute_list_syntax(ident_term)
}

fn mutual_decl(p: &mut Parser) -> ParserResult<Syntax> {
    p.mutual_declaration(attribute_list, ident_term, ident_term)
}

#[test]
fn mutual_blocks() {
    let text = "mutual\n  axiom a : A\n  constant c : C\nend";
    let mut parser = Parser::new(text);
    let r = parser.mutual_command(mutual_decl).unwrap();
    let (kind, s, e, children) = node_parts(&r);
    assert_eq!(kind, SyntaxKind::Mutual);
    assert_eq!((s, e), (0, text.len()));
    assert_eq!(children.len(), 2);
    assert_eq!(node_parts(&children[0]).0, SyntaxKind::Axiom);
    assert_eq!(node_parts(&children[1]).0, SyntaxKind::Constant);

    let mut parser = Parser::new("mutual end");
    let r = parser.mutual_command(mutual_decl).unwrap();
    assert_eq!(node_parts(&r).3.len(), 0);

    let mut parser = Parser::new("mutual axiom a : A");
    assert_eq!(expected_text(&parser.mutual_command(mutual_decl)), "keyword 'end'");
    assert_eq!(parser.position().offset, 18);

    let mut parser = Parser::new("mutual foo end");
    assert_eq!(expected_text(&parser.mutual_command(mutual_decl)), "mutual declaration");

    let mut parser = Parser::new("mutually");
    assert_eq!(expected_text(&parser.mutual_command(mutual_decl)), "keyword 'mutual'");
}

#[test]
fn mutual_declarations_by_keyword() {
    let mut parser = Parser::new("def f := x");
    let r = parser.mutual_declaration(attribute_list, ident_term, ident_term).unwrap();
    assert_eq!(node_parts(&r).0, SyntaxKind::Def);
    let mut parser = Parser::new("theorem t : P := p");
    let r = parser.mutual_declaration(attribute_list, ident_term, ident_term).unwrap();
    assert_eq!(node_parts(&r).0, SyntaxKind::Theorem);
    let mut parser = Parser::new("inductive T where | a");
    let r = parser.mutual_declaration(attribute_list, ident_term, ident_term).unwrap();
    assert_eq!(node_parts(&r).0, SyntaxKind::Inductive);
    let mut parser = Parser::new("lemma l : P");
    assert_eq!(expected_text(&parser.mutual_declaration(attribute_list, ident_term, ident_term)), "mutual declaration");
    assert_eq!(parser.position().offset, 0);
}
