use lean_parser::syntax::{SourcePos, SourceRange, Syntax, SyntaxAtom, SyntaxKind, SyntaxNode};
use lean_parser::theorems::{
    asts_equal, collect_prop_theorems, collect_theorem_names, compare_tables, contains_text,
    extract_theorem_head, extract_theorem_name, pair_theorem_files, same_repr, syntax_to_repr,
    SyntaxRepr, TheoremDifference, TheoremTable,
};

fn range() -> SourceRange {
    SourceRange { start: SourcePos::new(1, 1, 0), end: SourcePos::new(1, 1, 0) }
}

fn atom(s: &str) -> Syntax {
    Syntax::Atom(SyntaxAtom::new(range(), s.to_string()))
}

fn node(kind: SyntaxKind, children: Vec<Syntax>) -> Syntax {
    Syntax::Node(Box::new(SyntaxNode::new(kind, range(), children)))
}

fn theorem(name: &str, param: &str, ty: &str) -> Syntax {
    node(
        SyntaxKind::Theorem,
        vec![atom(name), node(SyntaxKind::LeftParen, vec![atom(param)]), node(SyntaxKind::App, vec![atom(ty)]), atom("proof")],
    )
}

fn module(children: Vec<Syntax>) -> Syntax {
    node(SyntaxKind::Module, children)
}

fn names_of(m: &Syntax) -> Vec<String> {
    let mut names = Vec::new();
    collect_theorem_names(m, &mut names);
    names
}

#[test]
fn theorem_names_in_walk_order() {
    let m = module(vec![
        theorem("a", "x", "T"),
        node(SyntaxKind::Namespace, vec![atom("N"), theorem("b", "y", "U")]),
        node(SyntaxKind::Theorem, vec![node(SyntaxKind::App, vec![])]),
        theorem("c", "z", "V"),
    ]);
    assert_eq!(names_of(&m), vec!["a", "b", "c"]);
    assert_eq!(names_of(&atom("x")), Vec::<String>::new());
}

#[test]
fn theorem_name_is_first_atom() {
    assert_eq!(extract_theorem_name(&[atom("t"), atom("u")]), Some(String::from("t")));
    assert_eq!(extract_theorem_name(&[node(SyntaxKind::App, vec![])]), None);
    assert_eq!(extract_theorem_name(&[]), None);
}

#[test]
fn theorem_head_parts() {
    let children = vec![atom("t"), atom("p1"), atom("p2"), atom("T"), atom("pf")];
    let head = extract_theorem_head(&children).unwrap();
    assert_eq!(head.name, "t");
    assert_eq!(head.params.len(), 2);
    assert!(matches!(&head.type_expr, SyntaxRepr::Atom(s) if s == "T"));
    // With two children the name stands where the statement would.
    let head = extract_theorem_head(&[atom("t"), atom("pf")]).unwrap();
    assert!(head.params.is_empty());
    assert!(matches!(&head.type_expr, SyntaxRepr::Atom(s) if s == "t"));
    assert!(extract_theorem_head(&[atom("t")]).is_none());
    assert!(extract_theorem_head(&[node(SyntaxKind::App, vec![]), atom("x")]).is_none());
}

#[test]
fn shapes_ignore_positions() {
    let a = node(SyntaxKind::App, vec![atom("f"), atom("x")]);
    let b = Syntax::Node(Box::new(SyntaxNode::new(
        SyntaxKind::App,
        SourceRange { start: SourcePos::new(3, 4, 20), end: SourcePos::new(3, 9, 25) },
        vec![atom("f"), atom("x")],
    )));
    assert!(same_repr(&syntax_to_repr(&a), &syntax_to_repr(&b)));
    let c = node(SyntaxKind::App, vec![atom("f"), atom("y")]);
    assert!(!same_repr(&syntax_to_repr(&a), &syntax_to_repr(&c)));
    let d = node(SyntaxKind::Lambda, vec![atom("f"), atom("x")]);
    assert!(!same_repr(&syntax_to_repr(&a), &syntax_to_repr(&d)));
    assert!(same_repr(&syntax_to_repr(&Syntax::Missing), &SyntaxRepr::Missing));
}

#[test]
fn contains_text_cases() {
    assert!(contains_text("«prop:foo»", "prop:"));
    assert!(contains_text("abc", ""));
    assert!(!contains_text("pro", "prop:"));
    assert!(!contains_text("prop", "prop:"));
}

fn table_of(m: &Syntax) -> TheoremTable {
    let mut t = TheoremTable::new();
    collect_prop_theorems(m, &mut t);
    t
}

#[test]
fn only_prop_theorems_are_collected() {
    let m = module(vec![theorem("prop:a", "x", "T"), theorem("b", "x", "T"), theorem("«prop:c»", "y", "U")]);
    let t = table_of(&m);
    assert_eq!(t.len(), 2);
    assert!(t.contains_key(&String::from("prop:a")));
    assert!(!t.contains_key(&String::from("b")));
    assert!(t.get(&String::from("«prop:c»")).is_some());
}

#[test]
fn later_theorem_of_the_same_name_wins() {
    let m = module(vec![theorem("prop:a", "x", "T"), theorem("prop:b", "x", "T"), theorem("prop:a", "y", "U")]);
    let t = table_of(&m);
    assert_eq!(t.len(), 2);
    let head = t.get(&String::from("prop:a")).unwrap();
    assert!(matches!(&head.type_expr, SyntaxRepr::Node { children, .. } if matches!(&children[0], SyntaxRepr::Atom(s) if s == "U")));
    assert_eq!(t.heads()[0].name, "prop:a");
}

#[test]
fn comparing_versions() {
    let lean = module(vec![theorem("prop:a", "x", "T"), theorem("prop:b", "x", "T"), theorem("prop:c", "x", "T")]);
    let decl = module(vec![theorem("prop:a", "x", "T"), theorem("prop:b", "x", "CHANGED"), theorem("prop:d", "x", "T")]);
    let diffs = compare_tables(&table_of(&lean), &table_of(&decl));
    let shown: Vec<String> = diffs
        .iter()
        .map(|d| match d {
            TheoremDifference::HeadDiffers(n) => format!("differs {}", n),
            TheoremDifference::MissingInDecl(n) => format!("missing in decl {}", n),
            TheoremDifference::MissingInLean(n) => format!("missing in lean {}", n),
        })
        .collect();
    assert_eq!(shown, vec!["differs prop:b", "missing in decl prop:c", "missing in lean prop:d"]);
    assert!(compare_tables(&table_of(&lean), &table_of(&lean)).is_empty());
}

#[test]
fn heads_compare_by_shape() {
    let a = extract_theorem_head(&[atom("t"), atom("x"), atom("T"), atom("pf1")]).unwrap();
    let b = extract_theorem_head(&[atom("t"), atom("x"), atom("T"), atom("pf2")]).unwrap();
    let c = extract_theorem_head(&[atom("t"), atom("y"), atom("T"), atom("pf1")]).unwrap();
    assert!(asts_equal(&a, &b));
    assert!(!asts_equal(&a, &c));
}

#[test]
fn pairing_lean_and_decl_files() {
    let names: Vec<String> = ["A.lean", "B.lean", "A.Decl.lean", "C.Decl.lean", "notes.txt", "C.lean"]
        .iter()
        .map(|s| s.to_string())
        .collect();
    assert_eq!(pair_theorem_files(&names), vec![(0, 2), (5, 3)]);
    let none: Vec<String> = vec![String::from("X.Decl.lean")];
    assert!(pair_theorem_files(&none).is_empty());
}
