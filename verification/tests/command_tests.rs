use lean_parser::commands::{
    parse_import_options, parse_name, parse_name_list, parse_renaming_list, read_command, Command,
    ElabError, Name,
};
use lean_parser::syntax::{SourcePos, SourceRange, Syntax, SyntaxAtom, SyntaxKind, SyntaxNode};

fn range() -> SourceRange {
    SourceRange { start: SourcePos::new(0, 0, 0), end: SourcePos::new(0, 0, 0) }
}

fn atom(s: &str) -> Syntax {
    Syntax::Atom(SyntaxAtom::new(range(), s.to_string()))
}

fn node(kind: SyntaxKind, children: Vec<Syntax>) -> Syntax {
    Syntax::Node(Box::new(SyntaxNode::new(kind, range(), children)))
}

fn invalid(r: Result<Command, ElabError>) -> String {
    match r {
        Err(ElabError::InvalidSyntax(m)) => m,
        other => panic!("expected invalid syntax, got {:?}", other),
    }
}

#[test]
fn test_import_options_parsing() {
    let import_node = SyntaxNode::new(
        SyntaxKind::Import,
        range(),
        vec![
            atom("Std.Data.List"),
            atom("only"),
            node(SyntaxKind::App, vec![atom("map"), atom(","), atom("filter")]),
        ],
    );
    let module_name = Name::mk_simple("Std.Data.List");
    let import = parse_import_options(&import_node, module_name).unwrap();

    assert!(import.only.is_some());
    let only_list = import.only.unwrap();
    assert_eq!(only_list.len(), 2);
    assert_eq!(only_list[0].text, "map");
    assert_eq!(only_list[1].text, "filter");
}

#[test]
fn names_from_atoms_and_identifiers() {
    assert_eq!(parse_name(&atom("x")).unwrap().text, "x");
    let id = node(SyntaxKind::Identifier, vec![atom("Foo"), atom("Bar")]);
    assert_eq!(parse_name(&id).unwrap().text, "Foo");
    assert!(matches!(parse_name(&node(SyntaxKind::Identifier, vec![])), Err(ElabError::InvalidSyntax(m)) if m == "Empty qualified name"));
    assert!(matches!(parse_name(&node(SyntaxKind::App, vec![])), Err(ElabError::InvalidSyntax(m)) if m == "Expected identifier"));
    assert!(matches!(parse_name(&Syntax::Missing), Err(ElabError::InvalidSyntax(m)) if m == "Expected identifier"));
}

#[test]
fn name_lists() {
    let list = node(
        SyntaxKind::App,
        vec![atom("a"), atom(","), node(SyntaxKind::Identifier, vec![atom("b")]), Syntax::Missing, atom("c")],
    );
    let names: Vec<String> = parse_name_list(&list).unwrap().into_iter().map(|n| n.text).collect();
    assert_eq!(names, vec!["a", "b", "c"]);
    assert!(matches!(parse_name_list(&atom("a")), Err(ElabError::InvalidSyntax(m)) if m == "Expected parenthesized list of names"));
    let bad = node(SyntaxKind::App, vec![atom("a"), node(SyntaxKind::App, vec![])]);
    assert!(matches!(parse_name_list(&bad), Err(ElabError::InvalidSyntax(m)) if m == "Expected identifier"));
}

#[test]
fn renaming_lists() {
    let list = node(
        SyntaxKind::App,
        vec![atom("x"), atom("→"), atom("y"), atom(","), atom("a"), atom("->"), atom("b"), atom("x"), atom("z")],
    );
    let ren = parse_renaming_list(&list).unwrap();
    assert_eq!(ren.get("x").unwrap().text, "z");
    assert_eq!(ren.get("a").unwrap().text, "b");
    assert!(ren.get("y").is_none());
    let missing = node(SyntaxKind::App, vec![atom("x"), atom("→")]);
    assert!(matches!(parse_renaming_list(&missing), Err(ElabError::InvalidSyntax(m)) if m == "Expected target name after arrow in renaming"));
    assert!(matches!(parse_renaming_list(&atom("x")), Err(ElabError::InvalidSyntax(m)) if m == "Expected parenthesized renaming list"));
}

#[test]
fn import_with_hiding_and_renaming() {
    let cmd = node(
        SyntaxKind::Import,
        vec![
            atom("M"),
            atom("hiding"),
            node(SyntaxKind::App, vec![atom("h")]),
            atom("renaming"),
            node(SyntaxKind::App, vec![atom("p"), atom("→"), atom("q")]),
            atom("only"),
        ],
    );
    match read_command(&cmd).unwrap() {
        Command::Import(x) => {
            assert_eq!(x.module_name.text, "M");
            assert!(x.only.is_none());
            assert_eq!(x.hiding.len(), 1);
            assert_eq!(x.hiding[0].text, "h");
            assert_eq!(x.renaming.get("p").unwrap().text, "q");
        },
        other => panic!("unexpected {:?}", other),
    }
    assert_eq!(invalid(read_command(&node(SyntaxKind::Import, vec![]))), "Import requires a module name");
}

#[test]
fn commands_read_from_syntax() {
    match read_command(&node(SyntaxKind::Namespace, vec![atom("N")])).unwrap() {
        Command::Namespace(n) => assert_eq!(n.text, "N"),
        other => panic!("unexpected {:?}", other),
    }
    assert!(matches!(read_command(&node(SyntaxKind::End, vec![])).unwrap(), Command::End(None)));
    assert_eq!(invalid(read_command(&node(SyntaxKind::Open, vec![]))), "Open requires a namespace name");
    match read_command(&node(SyntaxKind::Def, vec![atom("f"), atom(":="), atom("1")])).unwrap() {
        Command::Def { name, value_index } => {
            assert_eq!(name.text, "f");
            assert_eq!(value_index, 2);
        },
        other => panic!("unexpected {:?}", other),
    }
    assert_eq!(invalid(read_command(&node(SyntaxKind::Def, vec![atom("f"), atom("x"), atom(":=")]))), "Def missing := value");
    assert_eq!(invalid(read_command(&node(SyntaxKind::Def, vec![atom("f")]))), "Def requires name, parameters/type, and value");
    match read_command(&node(
        SyntaxKind::Theorem,
        vec![atom("t"), atom(":"), atom("P"), atom(":"), atom(":="), atom("pf")],
    ))
    .unwrap()
    {
        Command::Theorem { name, type_index, proof_index } => {
            assert_eq!(name.text, "t");
            assert_eq!(type_index, 2);
            assert_eq!(proof_index, 5);
        },
        other => panic!("unexpected {:?}", other),
    }
    assert_eq!(
        invalid(read_command(&node(SyntaxKind::Theorem, vec![atom("t"), atom("P"), atom(":="), atom("pf")]))),
        "Theorem missing type"
    );
    assert_eq!(
        invalid(read_command(&node(SyntaxKind::Theorem, vec![atom("t"), atom(":"), atom("P"), atom("pf")]))),
        "Theorem missing := proof"
    );
    assert_eq!(invalid(read_command(&node(SyntaxKind::Axiom, vec![atom("a"), atom(":")]))), "Axiom missing type");
    assert!(matches!(
        read_command(&node(SyntaxKind::Constant, vec![atom("c"), atom(":"), atom("T")])).unwrap(),
        Command::Axiom { type_index: 2, .. }
    ));
    assert_eq!(invalid(read_command(&node(SyntaxKind::Variable, vec![atom("x")]))), "Invalid variable binder");
    assert!(matches!(
        read_command(&node(SyntaxKind::Variable, vec![node(SyntaxKind::LeftParen, vec![])])).unwrap(),
        Command::Variable { binders: 1 }
    ));
    assert!(matches!(read_command(&node(SyntaxKind::Universe, vec![])), Err(ElabError::UnsupportedFeature(_))));
    assert!(matches!(read_command(&node(SyntaxKind::App, vec![])), Err(ElabError::UnsupportedSyntax(SyntaxKind::App))));
    assert_eq!(invalid(read_command(&atom("x"))), "Expected command syntax");
}
