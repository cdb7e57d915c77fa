//! Reading the names and options of commands from their syntax: names,
//! module paths, and the `only`, `hiding` and `renaming` options of an
//! import.
use vstd::prelude::*;
use crate::syntax::{Syntax, SyntaxKind, SyntaxNode};

verus! {

/// A name: a single component, kept as its text.
#[derive(Debug)]
pub struct Name {
    pub text: String,
}

impl Name {
    /// The name with the one component `s`.
    pub fn mk_simple(s: &str) -> (n: Name)
        ensures
            n.text@ == s@,
    {
        Name { text: s.to_owned() }
    }

    /// A copy of this name.
    pub fn duplicate(&self) -> (n: Name)
        ensures
            n.text@ == self.text@,
    {
        Name { text: self.text.clone() }
    }
}

/// Why a command could not be elaborated.
#[derive(Debug)]
pub enum ElabError {
    /// The syntax is not what the command needs; the text says why.
    InvalidSyntax(String),
    /// The command is of a kind that is not elaborated.
    UnsupportedSyntax(SyntaxKind),
    /// The command is of a kind whose elaboration is not written yet.
    UnsupportedFeature(String),
    /// The namespaces do not nest as the command says.
    NamespaceError(String),
}

/// `e` says that the syntax is invalid, for the reason `msg`.
pub open spec fn is_invalid_syntax(e: ElabError, msg: Seq<char>) -> bool {
    e matches ElabError::InvalidSyntax(m) && m@ == msg
}

/// The name that `s` spells, or why it spells none: an atom spells its
/// text, an `Identifier` node the name of its first child.
pub open spec fn name_of(s: Syntax) -> Result<Seq<char>, Seq<char>>
    decreases s,
{
    match s {
        Syntax::Atom(a) => Ok(a.value@),
        Syntax::Node(n) => if n.kind == SyntaxKind::Identifier {
            if n.children@.len() > 0 {
                name_of(n.children@[0])
            } else {
                Err("Empty qualified name"@)
            }
        } else {
            Err("Expected identifier"@)
        },
        Syntax::Missing => Err("Expected identifier"@),
    }
}

/// `r` is what `name_of(s)` gives: the name, or the invalid-syntax error.
pub open spec fn name_result(s: Syntax, r: Result<Name, ElabError>) -> bool {
    match name_of(s) {
        Ok(n) => r matches Ok(x) && x.text@ == n,
        Err(m) => r matches Err(e) && is_invalid_syntax(e, m),
    }
}

/// Reads a name from syntax (see `name_of`).
pub fn parse_name(syntax: &Syntax) -> (r: Result<Name, ElabError>)
    ensures
        name_result(*syntax, r),
    decreases syntax,
{
    match syntax {
        Syntax::Atom(atom) => Ok(Name::mk_simple(atom.value.as_str())),
        Syntax::Node(node) => {
            if node.kind == SyntaxKind::Identifier {
                proof {
                    assert(decreases_to!(*syntax => syntax->Node_0));
                }
                parse_qualified_name(node)
            } else {
                Err(ElabError::InvalidSyntax("Expected identifier".to_owned()))
            }
        },
        Syntax::Missing => Err(ElabError::InvalidSyntax("Expected identifier".to_owned())),
    }
}

/// Reads a qualified name from an `Identifier` node: the name of its first
/// child.
pub fn parse_qualified_name(node: &SyntaxNode) -> (r: Result<Name, ElabError>)
    ensures
        node.children@.len() > 0 ==> name_result(node.children@[0], r),
        node.children@.len() == 0 ==> (r matches Err(e) && is_invalid_syntax(e, "Empty qualified name"@)),
    decreases node,
{
    if node.children.len() > 0 {
        proof {
            assert(decreases_to!(*node => node.children));
            assert(decreases_to!(node.children => node.children@));
            assert(decreases_to!(node.children@ => node.children@[0]));
        }
        parse_name(&node.children[0])
    } else {
        Err(ElabError::InvalidSyntax("Empty qualified name".to_owned()))
    }
}

/// Reads a module path: the same as a name.
pub fn parse_module_path(syntax: &Syntax) -> (r: Result<Name, ElabError>)
    ensures
        name_result(*syntax, r),
{
    parse_name(syntax)
}

/// The names in the children `cs` of a list, in order: each atom but the
/// commas, and the name of each node; the first node that spells no name
/// stops the list with its error.
pub open spec fn names_in_list(cs: Seq<Syntax>) -> Result<Seq<Seq<char>>, Seq<char>>
    decreases cs.len(),
{
    if cs.len() == 0 {
        Ok(Seq::empty())
    } else {
        match names_in_list(cs.drop_last()) {
            Err(m) => Err(m),
            Ok(ns) => match cs.last() {
                Syntax::Atom(a) => if a.value@ != ","@ { Ok(ns.push(a.value@)) } else { Ok(ns) },
                Syntax::Node(_) => match name_of(cs.last()) {
                    Ok(n) => Ok(ns.push(n)),
                    Err(m) => Err(m),
                },
                Syntax::Missing => Ok(ns),
            },
        }
    }
}

/// The names of a parenthesized list `s`, which must be a node.
pub open spec fn name_list_of(s: Syntax) -> Result<Seq<Seq<char>>, Seq<char>> {
    match s {
        Syntax::Node(n) => names_in_list(n.children@),
        _ => Err("Expected parenthesized list of names"@),
    }
}

/// The texts of a list of names.
pub open spec fn name_texts(ns: Seq<Name>) -> Seq<Seq<char>> {
    ns.map_values(|n: Name| n.text@)
}

/// Reads the names of a parenthesized list (see `name_list_of`).
pub fn parse_name_list(syntax: &Syntax) -> (r: Result<Vec<Name>, ElabError>)
    ensures
        match name_list_of(*syntax) {
            Ok(ns) => r matches Ok(v) && name_texts(v@) == ns,
            Err(m) => r matches Err(e) && is_invalid_syntax(e, m),
        },
{
    match syntax {
        Syntax::Node(node) => {
            let ghost cs = node.children@;
            let mut names: Vec<Name> = Vec::new();
            let mut k: usize = 0;
            assert(cs.subrange(0, 0) =~= Seq::<Syntax>::empty());
            assert(name_texts(names@) =~= Seq::<Seq<char>>::empty());
            while k < node.children.len()
                invariant
                    *syntax == Syntax::Node(*node),
                    cs == node.children@,
                    k <= cs.len(),
                    names_in_list(cs.subrange(0, k as int)) == Ok::<Seq<Seq<char>>, Seq<char>>(name_texts(names@)),
                decreases cs.len() - k,
            {
                proof {
                    assert(cs.subrange(0, k + 1).drop_last() =~= cs.subrange(0, k as int));
                    assert(cs.subrange(0, k + 1).last() == cs[k as int]);
                }
                let ghost before = names@;
                match &node.children[k] {
                    Syntax::Atom(atom) => {
                        let comma = ",".to_owned();
                        if atom.value != comma {
                            names.push(Name::mk_simple(atom.value.as_str()));
                            assert(name_texts(names@) =~= name_texts(before).push(atom.value@));
                        }
                    },
                    Syntax::Node(_) => {
                        match parse_name(&node.children[k]) {
                            Ok(n) => {
                                names.push(n);
                                assert(name_texts(names@) =~= name_texts(before).push(names@.last().text@));
                            },
                            Err(e) => {
                                proof {
                                    let m = name_of(cs[k as int])->Err_0;
                                    assert(names_in_list(cs.subrange(0, k + 1)) == Err::<Seq<Seq<char>>, Seq<char>>(m));
                                    lemma_names_in_list_err(cs, k as int + 1);
                                }
                                return Err(e);
                            },
                        }
                    },
                    Syntax::Missing => {},
                }
                k += 1;
            }
            assert(cs.subrange(0, cs.len() as int) =~= cs);
            Ok(names)
        },
        _ => Err(ElabError::InvalidSyntax("Expected parenthesized list of names".to_owned())),
    }
}

/// An error in a prefix of the list stays the error of the whole list.
proof fn lemma_names_in_list_err(cs: Seq<Syntax>, k: int)
    requires
        0 <= k <= cs.len(),
        names_in_list(cs.subrange(0, k)) is Err,
    ensures
        names_in_list(cs) == names_in_list(cs.subrange(0, k)),
    decreases cs.len() - k,
{
    if k < cs.len() {
        assert(cs.subrange(0, k + 1).drop_last() =~= cs.subrange(0, k));
        lemma_names_in_list_err(cs, k + 1);
    } else {
        assert(cs.subrange(0, k) =~= cs);
    }
}

/// `s` is an atom reading as `text`.
pub open spec fn is_atom_text(s: Syntax, text: Seq<char>) -> bool {
    s matches Syntax::Atom(a) && a.value@ == text
}

/// Is `s` an atom reading as `text`?
fn atom_is(s: &Syntax, text: &str) -> (b: bool)
    ensures
        b == is_atom_text(*s, text@),
{
    match s {
        Syntax::Atom(a) => {
            let t = text.to_owned();
            a.value == t
        },
        _ => false,
    }
}

/// The pairs `from → to` of a renaming list from child `i` of `cs`: a
/// name, an optional arrow `→` or `->`, a name, an optional comma, and so
/// on; a source name without a target is an error.
pub open spec fn renamings_from(cs: Seq<Syntax>, i: int) -> Result<Seq<(Seq<char>, Seq<char>)>, Seq<char>>
    decreases cs.len() - i,
{
    if i < 0 || i >= cs.len() {
        Ok(Seq::empty())
    } else {
        match name_of(cs[i]) {
            Err(m) => Err(m),
            Ok(from) => {
                let j = if i + 1 < cs.len() && (is_atom_text(cs[i + 1], "→"@) || is_atom_text(cs[i + 1], "->"@)) {
                    i + 2
                } else {
                    i + 1
                };
                if j < cs.len() {
                    match name_of(cs[j]) {
                        Err(m) => Err(m),
                        Ok(to) => {
                            let k = if j + 1 < cs.len() && is_atom_text(cs[j + 1], ","@) { j + 2 } else { j + 1 };
                            match renamings_from(cs, k) {
                                Ok(rest) => Ok(seq![(from, to)] + rest),
                                Err(m) => Err(m),
                            }
                        },
                    }
                } else {
                    Err("Expected target name after arrow in renaming"@)
                }
            },
        }
    }
}

/// The pairs of a renaming list `s`, which must be a node.
pub open spec fn renaming_of(s: Syntax) -> Result<Seq<(Seq<char>, Seq<char>)>, Seq<char>> {
    match s {
        Syntax::Node(n) => renamings_from(n.children@, 0),
        _ => Err("Expected parenthesized renaming list"@),
    }
}

/// The map that inserting the pairs `ps` in order builds: a later pair for
/// the same source wins.
pub open spec fn rename_map(ps: Seq<(Seq<char>, Seq<char>)>) -> Map<Seq<char>, Seq<char>>
    decreases ps.len(),
{
    if ps.len() == 0 {
        Map::empty()
    } else {
        rename_map(ps.drop_last()).insert(ps.last().0, ps.last().1)
    }
}

/// A renaming of names: a map from source names to target names, kept as
/// the pairs in the order they were inserted.
#[derive(Debug)]
pub struct Renaming {
    pairs: Vec<(Name, Name)>,
}

impl Renaming {
    /// The inserted pairs, in order.
    pub closed spec fn pairs_spec(self) -> Seq<(Seq<char>, Seq<char>)> {
        self.pairs@.map_values(|p: (Name, Name)| (p.0.text@, p.1.text@))
    }

    /// The map from source names to target names.
    pub open spec fn map(self) -> Map<Seq<char>, Seq<char>> {
        rename_map(self.pairs_spec())
    }

    /// The empty renaming.
    pub fn new() -> (r: Renaming)
        ensures
            r.pairs_spec() == Seq::<(Seq<char>, Seq<char>)>::empty(),
    {
        let r = Renaming { pairs: Vec::new() };
        assert(r.pairs_spec() =~= Seq::<(Seq<char>, Seq<char>)>::empty());
        r
    }

    /// Maps `from` to `to`.
    pub fn insert(&mut self, from: Name, to: Name)
        ensures
            final(self).pairs_spec() == old(self).pairs_spec().push((from.text@, to.text@)),
    {
        self.pairs.push((from, to));
        assert(self.pairs_spec() =~= old(self).pairs_spec().push((from.text@, to.text@)));
    }

    /// The target of `from`, if it has one.
    pub fn get(&self, from: &str) -> (r: Option<&Name>)
        ensures
            match r {
                Some(n) => self.map().contains_key(from@) && self.map()[from@] == n.text@,
                None => !self.map().contains_key(from@),
            },
    {
        let ghost ps = self.pairs_spec();
        let key = from.to_owned();
        let mut k: usize = self.pairs.len();
        assert(ps.subrange(0, ps.len() as int) =~= ps);
        while k > 0
            invariant
                ps == self.pairs_spec(),
                key@ == from@,
                k <= ps.len(),
                rename_map(ps).contains_key(from@) == rename_map(ps.subrange(0, k as int)).contains_key(from@),
                rename_map(ps).contains_key(from@) ==> rename_map(ps)[from@] == rename_map(ps.subrange(0, k as int))[from@],
            decreases k,
        {
            proof {
                assert(ps.subrange(0, k as int).drop_last() =~= ps.subrange(0, k - 1));
                assert(ps.subrange(0, k as int).last() == ps[k - 1]);
            }
            if self.pairs[k - 1].0.text == key {
                return Some(&self.pairs[k - 1].1);
            }
            k -= 1;
        }
        assert(ps.subrange(0, 0) =~= Seq::<(Seq<char>, Seq<char>)>::empty());
        None
    }
}

/// Reads a renaming list `(a → b, c → d)` (see `renaming_of`).
pub fn parse_renaming_list(syntax: &Syntax) -> (r: Result<Renaming, ElabError>)
    ensures
        match renaming_of(*syntax) {
            Ok(ps) => r matches Ok(x) && x.pairs_spec() == ps,
            Err(m) => r matches Err(e) && is_invalid_syntax(e, m),
        },
{
    match syntax {
        Syntax::Node(node) => {
            let ghost cs = node.children@;
            let mut renaming = Renaming::new();
            let mut i: usize = 0;
            proof {
                assert(renaming.pairs_spec() + Seq::<(Seq<char>, Seq<char>)>::empty() =~= renaming.pairs_spec());
            }
            while i < node.children.len()
                invariant
                    *syntax == Syntax::Node(*node),
                    cs == node.children@,
                    i <= cs.len() + 1,
                    renamings_from(cs, 0) == match renamings_from(cs, i as int) {
                        Ok(rest) => Ok::<Seq<(Seq<char>, Seq<char>)>, Seq<char>>(renaming.pairs_spec() + rest),
                        Err(m) => Err(m),
                    },
                decreases cs.len() + 1 - i,
            {
                let ghost i0 = i as int;
                let ghost before = renaming.pairs_spec();
                let from = match parse_name(&node.children[i]) {
                    Ok(n) => n,
                    Err(e) => {
                        proof {
                            let m = name_of(cs[i0])->Err_0;
                            assert(renamings_from(cs, i0) == Err::<Seq<(Seq<char>, Seq<char>)>, Seq<char>>(m));
                        }
                        return Err(e);
                    },
                };
                i += 1;
                if i < node.children.len() {
                    if atom_is(&node.children[i], "→") || atom_is(&node.children[i], "->") {
                        i += 1;
                    }
                }
                if i < node.children.len() {
                    let to = match parse_name(&node.children[i]) {
                        Ok(n) => n,
                        Err(e) => {
                            proof {
                                let m = name_of(cs[i as int])->Err_0;
                                assert(renamings_from(cs, i0) == Err::<Seq<(Seq<char>, Seq<char>)>, Seq<char>>(m));
                            }
                            return Err(e);
                        },
                    };
                    let ghost pair = (from.text@, to.text@);
                    renaming.insert(from, to);
                    i += 1;
                    if i < node.children.len() {
                        if atom_is(&node.children[i], ",") {
                            i += 1;
                        }
                    }
                    proof {
                        match renamings_from(cs, i as int) {
                            Ok(rest) => {
                                assert(before + (seq![pair] + rest) =~= renaming.pairs_spec() + rest);
                            },
                            Err(m) => {},
                        }
                    }
                } else {
                    return Err(ElabError::InvalidSyntax("Expected target name after arrow in renaming".to_owned()));
                }
            }
            proof {
                assert(renamings_from(cs, i as int) == Ok::<Seq<(Seq<char>, Seq<char>)>, Seq<char>>(Seq::empty()));
                assert(renaming.pairs_spec() + Seq::<(Seq<char>, Seq<char>)>::empty() =~= renaming.pairs_spec());
            }
            Ok(renaming)
        },
        _ => Err(ElabError::InvalidSyntax("Expected parenthesized renaming list".to_owned())),
    }
}

/// What an import says: the module, the names it is restricted to, the
/// names it hides, and the renaming pairs in order.
pub ghost struct ImportModel {
    pub module: Seq<char>,
    pub only: Option<Seq<Seq<char>>>,
    pub hiding: Seq<Seq<char>>,
    pub renaming: Seq<(Seq<char>, Seq<char>)>,
}

/// The options of an import from child `i` of `cs` on, read into `st`:
/// `only` and `hiding` followed by a list of names, `renaming` followed by
/// a renaming list; each replaces what an earlier one of its kind said,
/// and anything else is passed over.
pub open spec fn options_from(cs: Seq<Syntax>, i: int, st: ImportModel) -> Result<ImportModel, Seq<char>>
    decreases cs.len() - i,
{
    if i < 0 || i >= cs.len() {
        Ok(st)
    } else if is_atom_text(cs[i], "only"@) {
        if i + 1 < cs.len() {
            match name_list_of(cs[i + 1]) {
                Ok(ns) => options_from(cs, i + 2, ImportModel { only: Some(ns), ..st }),
                Err(m) => Err(m),
            }
        } else {
            Ok(st)
        }
    } else if is_atom_text(cs[i], "hiding"@) {
        if i + 1 < cs.len() {
            match name_list_of(cs[i + 1]) {
                Ok(ns) => options_from(cs, i + 2, ImportModel { hiding: ns, ..st }),
                Err(m) => Err(m),
            }
        } else {
            Ok(st)
        }
    } else if is_atom_text(cs[i], "renaming"@) {
        if i + 1 < cs.len() {
            match renaming_of(cs[i + 1]) {
                Ok(ps) => options_from(cs, i + 2, ImportModel { renaming: ps, ..st }),
                Err(m) => Err(m),
            }
        } else {
            Ok(st)
        }
    } else {
        options_from(cs, i + 1, st)
    }
}

/// The import of `module` with the options that follow the first child of
/// `cs` (see `options_from`).
pub open spec fn import_options_of(cs: Seq<Syntax>, module: Seq<char>) -> Result<ImportModel, Seq<char>> {
    options_from(
        cs,
        1,
        ImportModel { module, only: None, hiding: Seq::empty(), renaming: Seq::empty() },
    )
}

/// An import of a module, with its options.
#[derive(Debug)]
pub struct ImportSpec {
    pub module_name: Name,
    pub only: Option<Vec<Name>>,
    pub hiding: Vec<Name>,
    pub renaming: Renaming,
}

/// What `x` says.
pub open spec fn import_model(x: ImportSpec) -> ImportModel {
    ImportModel {
        module: x.module_name.text@,
        only: match x.only {
            Some(v) => Some(name_texts(v@)),
            None => None,
        },
        hiding: name_texts(x.hiding@),
        renaming: x.renaming.pairs_spec(),
    }
}

impl ImportSpec {
    /// The import of `module_name` without options.
    pub fn simple(module_name: Name) -> (x: ImportSpec)
        ensures
            import_model(x) == (ImportModel {
                module: module_name.text@,
                only: None,
                hiding: Seq::empty(),
                renaming: Seq::empty(),
            }),
    {
        let x = ImportSpec { module_name, only: None, hiding: Vec::new(), renaming: Renaming::new() };
        assert(name_texts(x.hiding@) =~= Seq::<Seq<char>>::empty());
        x
    }
}

/// Reads the options of the import command `node` (see
/// `import_options_of`).
pub fn parse_import_options(node: &SyntaxNode, module_name: Name) -> (r: Result<ImportSpec, ElabError>)
    ensures
        match import_options_of(node.children@, module_name.text@) {
            Ok(m) => r matches Ok(x) && import_model(x) == m,
            Err(m) => r matches Err(e) && is_invalid_syntax(e, m),
        },
{
    let ghost cs = node.children@;
    let ghost module = module_name.text@;
    let mut import = ImportSpec::simple(module_name);
    let mut i: usize = 1;
    while i < node.children.len()
        invariant
            cs == node.children@,
            module == module_name.text@,
            1 <= i,
            import_options_of(cs, module) == options_from(cs, i as int, import_model(import)),
        decreases cs.len() - i,
    {
        let ghost st = import_model(import);
        let ghost i0 = i as int;
        if atom_is(&node.children[i], "only") {
            if i + 1 < node.children.len() {
                match parse_name_list(&node.children[i + 1]) {
                    Ok(ns) => {
                        import.only = Some(ns);
                        assert(import_model(import) == (ImportModel { only: Some(name_list_of(cs[i0 + 1])->Ok_0), ..st }));
                    },
                    Err(e) => {
                        return Err(e);
                    },
                }
                i += 2;
            } else {
                i += 1;
            }
        } else if atom_is(&node.children[i], "hiding") {
            if i + 1 < node.children.len() {
                match parse_name_list(&node.children[i + 1]) {
                    Ok(ns) => {
                        import.hiding = ns;
                        assert(import_model(import) == (ImportModel { hiding: name_list_of(cs[i0 + 1])->Ok_0, ..st }));
                    },
                    Err(e) => {
                        return Err(e);
                    },
                }
                i += 2;
            } else {
                i += 1;
            }
        } else if atom_is(&node.children[i], "renaming") {
            if i + 1 < node.children.len() {
                match parse_renaming_list(&node.children[i + 1]) {
                    Ok(ren) => {
                        import.renaming = ren;
                        assert(import_model(import) == (ImportModel { renaming: renaming_of(cs[i0 + 1])->Ok_0, ..st }));
                    },
                    Err(e) => {
                        return Err(e);
                    },
                }
                i += 2;
            } else {
                i += 1;
            }
        } else {
            i += 1;
        }
    }
    Ok(import)
}

/// The import that the import command `node` asks for: its first child is
/// the module path, the rest are options.
pub fn import_spec(node: &SyntaxNode) -> (r: Result<ImportSpec, ElabError>)
    ensures
        node.children@.len() == 0 ==> (r matches Err(e) && is_invalid_syntax(e, "Import requires a module name"@)),
        node.children@.len() > 0 ==> match name_of(node.children@[0]) {
            Err(m) => r matches Err(e) && is_invalid_syntax(e, m),
            Ok(module) => match import_options_of(node.children@, module) {
                Ok(m) => r matches Ok(x) && import_model(x) == m,
                Err(m) => r matches Err(e) && is_invalid_syntax(e, m),
            },
        },
{
    if node.children.len() == 0 {
        return Err(ElabError::InvalidSyntax("Import requires a module name".to_owned()));
    }
    let module_name = match parse_module_path(&node.children[0]) {
        Ok(n) => n,
        Err(e) => {
            return Err(e);
        },
    };
    parse_import_options(node, module_name)
}

/// What an elaboration error says.
pub ghost enum ErrorModel {
    InvalidSyntax(Seq<char>),
    UnsupportedSyntax(SyntaxKind),
    UnsupportedFeature(Seq<char>),
    NamespaceError(Seq<char>),
}

/// What `e` says.
pub open spec fn error_model(e: ElabError) -> ErrorModel {
    match e {
        ElabError::InvalidSyntax(m) => ErrorModel::InvalidSyntax(m@),
        ElabError::UnsupportedSyntax(k) => ErrorModel::UnsupportedSyntax(k),
        ElabError::UnsupportedFeature(m) => ErrorModel::UnsupportedFeature(m@),
        ElabError::NamespaceError(m) => ErrorModel::NamespaceError(m@),
    }
}

/// What a command asks the elaborator to do, as read from its syntax.
pub ghost enum CommandModel {
    Import(ImportModel),
    Namespace(Seq<char>),
    Open(Seq<char>),
    End(Option<Seq<char>>),
    Section(Option<Seq<char>>),
    /// A definition: its name and the child that holds its value.
    Def(Seq<char>, int),
    /// A theorem: its name and the children that hold its statement and
    /// its proof.
    Theorem(Seq<char>, int, int),
    /// An axiom or constant: its name and the child that holds its type.
    Axiom(Seq<char>, int),
    /// A variable command with this many binders.
    Variable(nat),
}

/// The child after the first `:=` atom of `cs` from `i` on that has a
/// child after it.
pub open spec fn value_index_from(cs: Seq<Syntax>, i: int) -> Option<int>
    decreases cs.len() - i,
{
    if i < 0 || i >= cs.len() {
        None
    } else if is_atom_text(cs[i], ":="@) && i + 1 < cs.len() {
        Some(i + 1)
    } else {
        value_index_from(cs, i + 1)
    }
}

/// The child after the first `:` atom of `cs` from `i` on.
pub open spec fn type_index_from(cs: Seq<Syntax>, i: int) -> Option<int>
    decreases cs.len() - i,
{
    if i < 0 || i >= cs.len() {
        None
    } else if is_atom_text(cs[i], ":"@) {
        Some(i + 1)
    } else {
        type_index_from(cs, i + 1)
    }
}

/// The statement and proof children of a theorem whose children are `cs`,
/// scanning from `i` with the statement found so far: after the first `:`
/// the statement, after the first `:=` that has a child after it the proof,
/// which ends the scan.
pub open spec fn theorem_scan(cs: Seq<Syntax>, i: int, ty: Option<int>) -> (Option<int>, Option<int>)
    decreases cs.len() - i,
{
    if i < 0 || i >= cs.len() {
        (ty, None)
    } else if is_atom_text(cs[i], ":"@) && ty is None {
        theorem_scan(cs, i + 1, Some(i + 1))
    } else if is_atom_text(cs[i], ":="@) && i + 1 < cs.len() {
        (ty, Some(i + 1))
    } else {
        theorem_scan(cs, i + 1, ty)
    }
}

/// A name read from `s` as the command `f` of it, or the error.
pub open spec fn with_name(s: Syntax, f: spec_fn(Seq<char>) -> Result<CommandModel, ErrorModel>) -> Result<CommandModel, ErrorModel> {
    match name_of(s) {
        Ok(n) => f(n),
        Err(m) => Err(ErrorModel::InvalidSyntax(m)),
    }
}

/// What the command `s` asks for, or why it cannot be elaborated: each
/// kind of command checks its children in the order the elaborator does.
pub open spec fn command_of(s: Syntax) -> Result<CommandModel, ErrorModel> {
    match s {
        Syntax::Node(n) => {
            let cs = n.children@;
            match n.kind {
                SyntaxKind::Import => if cs.len() == 0 {
                    Err(ErrorModel::InvalidSyntax("Import requires a module name"@))
                } else {
                    with_name(cs[0], |m: Seq<char>| match import_options_of(cs, m) {
                        Ok(x) => Ok(CommandModel::Import(x)),
                        Err(e) => Err(ErrorModel::InvalidSyntax(e)),
                    })
                },
                SyntaxKind::Namespace => if cs.len() == 0 {
                    Err(ErrorModel::InvalidSyntax("Namespace requires a name"@))
                } else {
                    with_name(cs[0], |m: Seq<char>| Ok(CommandModel::Namespace(m)))
                },
                SyntaxKind::Open => if cs.len() == 0 {
                    Err(ErrorModel::InvalidSyntax("Open requires a namespace name"@))
                } else {
                    with_name(cs[0], |m: Seq<char>| Ok(CommandModel::Open(m)))
                },
                SyntaxKind::End => if cs.len() == 0 {
                    Ok(CommandModel::End(None))
                } else {
                    with_name(cs[0], |m: Seq<char>| Ok(CommandModel::End(Some(m))))
                },
                SyntaxKind::Section => if cs.len() == 0 {
                    Ok(CommandModel::Section(None))
                } else {
                    with_name(cs[0], |m: Seq<char>| Ok(CommandModel::Section(Some(m))))
                },
                SyntaxKind::Def => if cs.len() < 3 {
                    Err(ErrorModel::InvalidSyntax("Def requires name, parameters/type, and value"@))
                } else {
                    with_name(cs[0], |m: Seq<char>| match value_index_from(cs, 0) {
                        Some(v) => Ok(CommandModel::Def(m, v)),
                        None => Err(ErrorModel::InvalidSyntax("Def missing := value"@)),
                    })
                },
                SyntaxKind::Theorem => if cs.len() < 4 {
                    Err(ErrorModel::InvalidSyntax("Theorem requires name, type, and proof"@))
                } else {
                    with_name(cs[0], |m: Seq<char>| {
                        let (ty, pf) = theorem_scan(cs, 0, None);
                        match ty {
                            Some(t) => if t < cs.len() {
                                match pf {
                                    Some(p) => Ok(CommandModel::Theorem(m, t, p)),
                                    None => Err(ErrorModel::InvalidSyntax("Theorem missing := proof"@)),
                                }
                            } else {
                                Err(ErrorModel::InvalidSyntax("Theorem missing type"@))
                            },
                            None => Err(ErrorModel::InvalidSyntax("Theorem missing type"@)),
                        }
                    })
                },
                SyntaxKind::Axiom | SyntaxKind::Constant => if cs.len() < 2 {
                    Err(ErrorModel::InvalidSyntax("Axiom requires name and type"@))
                } else {
                    with_name(cs[0], |m: Seq<char>| match type_index_from(cs, 0) {
                        Some(t) => if t < cs.len() {
                            Ok(CommandModel::Axiom(m, t))
                        } else {
                            Err(ErrorModel::InvalidSyntax("Axiom missing type"@))
                        },
                        None => Err(ErrorModel::InvalidSyntax("Axiom missing type"@)),
                    })
                },
                SyntaxKind::Variable => if cs.len() == 0 {
                    Err(ErrorModel::InvalidSyntax("Variable requires at least one binder"@))
                } else if forall|i: int| 0 <= i < cs.len() ==> (#[trigger] cs[i]) is Node {
                    Ok(CommandModel::Variable(cs.len()))
                } else {
                    Err(ErrorModel::InvalidSyntax("Invalid variable binder"@))
                },
                SyntaxKind::Universe => Err(ErrorModel::UnsupportedFeature("universe elaboration not yet implemented"@)),
                SyntaxKind::Inductive => Err(ErrorModel::UnsupportedFeature("inductive elaboration not yet implemented"@)),
                _ => Err(ErrorModel::UnsupportedSyntax(n.kind)),
            }
        },
        _ => Err(ErrorModel::InvalidSyntax("Expected command syntax"@)),
    }
}

/// What a command asks the elaborator to do (see `CommandModel`).
#[derive(Debug)]
pub enum Command {
    Import(ImportSpec),
    Namespace(Name),
    Open(Name),
    End(Option<Name>),
    Section(Option<Name>),
    Def { name: Name, value_index: usize },
    Theorem { name: Name, type_index: usize, proof_index: usize },
    Axiom { name: Name, type_index: usize },
    Variable { binders: usize },
}

/// The text of an optional name.
pub open spec fn opt_name(n: Option<Name>) -> Option<Seq<char>> {
    match n {
        Some(x) => Some(x.text@),
        None => None,
    }
}

/// What `c` says.
pub open spec fn command_model(c: Command) -> CommandModel {
    match c {
        Command::Import(x) => CommandModel::Import(import_model(x)),
        Command::Namespace(n) => CommandModel::Namespace(n.text@),
        Command::Open(n) => CommandModel::Open(n.text@),
        Command::End(n) => CommandModel::End(opt_name(n)),
        Command::Section(n) => CommandModel::Section(opt_name(n)),
        Command::Def { name, value_index } => CommandModel::Def(name.text@, value_index as int),
        Command::Theorem { name, type_index, proof_index } => CommandModel::Theorem(name.text@, type_index as int, proof_index as int),
        Command::Axiom { name, type_index } => CommandModel::Axiom(name.text@, type_index as int),
        Command::Variable { binders } => CommandModel::Variable(binders as nat),
    }
}

/// `r` is what `command_of(s)` says.
pub open spec fn command_result(s: Syntax, r: Result<Command, ElabError>) -> bool {
    match command_of(s) {
        Ok(c) => r matches Ok(x) && command_model(x) == c,
        Err(e) => r matches Err(x) && error_model(x) == e,
    }
}

/// The value child of a definition (see `value_index_from`).
fn def_value_index(cs: &[Syntax]) -> (r: Option<usize>)
    ensures
        match r {
            Some(v) => value_index_from(cs@, 0) == Some(v as int),
            None => value_index_from(cs@, 0) is None,
        },
{
    let mut i: usize = 0;
    while i < cs.len()
        invariant
            i <= cs@.len(),
            value_index_from(cs@, 0) == value_index_from(cs@, i as int),
        decreases cs@.len() - i,
    {
        if atom_is(&cs[i], ":=") && i + 1 < cs.len() {
            return Some(i + 1);
        }
        i += 1;
    }
    None
}

/// The type child of an axiom (see `type_index_from`).
fn axiom_type_index(cs: &[Syntax]) -> (r: Option<usize>)
    ensures
        match r {
            Some(v) => type_index_from(cs@, 0) == Some(v as int),
            None => type_index_from(cs@, 0) is None,
        },
{
    let mut i: usize = 0;
    while i < cs.len()
        invariant
            i <= cs@.len(),
            type_index_from(cs@, 0) == type_index_from(cs@, i as int),
        decreases cs@.len() - i,
    {
        if atom_is(&cs[i], ":") {
            return Some(i + 1);
        }
        i += 1;
    }
    None
}

/// The statement and proof children of a theorem (see `theorem_scan`).
fn theorem_indices(cs: &[Syntax]) -> (r: (Option<usize>, Option<usize>))
    ensures
        (match r.0 {
            Some(v) => Some(v as int),
            None => None,
        }) == theorem_scan(cs@, 0, None).0,
        (match r.1 {
            Some(v) => Some(v as int),
            None => None,
        }) == theorem_scan(cs@, 0, None).1,
{
    let mut type_idx: Option<usize> = None;
    let mut i: usize = 0;
    while i < cs.len()
        invariant
            i <= cs@.len(),
            theorem_scan(cs@, 0, None) == theorem_scan(cs@, i as int, match type_idx {
                Some(v) => Some(v as int),
                None => None,
            }),
        decreases cs@.len() - i,
    {
        if atom_is(&cs[i], ":") && type_idx.is_none() {
            type_idx = Some(i + 1);
        } else if atom_is(&cs[i], ":=") && i + 1 < cs.len() {
            return (type_idx, Some(i + 1));
        }
        i += 1;
    }
    (type_idx, None)
}

/// Reads what the command `syntax` asks the elaborator to do (see
/// `command_of`).
pub fn read_command(syntax: &Syntax) -> (r: Result<Command, ElabError>)
    ensures
        command_result(*syntax, r),
{
    match syntax {
        Syntax::Node(node) => {
            let cs = node.children.as_slice();
            match node.kind {
                SyntaxKind::Import => match import_spec(node) {
                    Ok(x) => Ok(Command::Import(x)),
                    Err(e) => Err(e),
                },
                SyntaxKind::Namespace => {
                    if cs.len() == 0 {
                        return Err(ElabError::InvalidSyntax("Namespace requires a name".to_owned()));
                    }
                    match parse_name(&cs[0]) {
                        Ok(n) => Ok(Command::Namespace(n)),
                        Err(e) => Err(e),
                    }
                },
                SyntaxKind::Open => {
                    if cs.len() == 0 {
                        return Err(ElabError::InvalidSyntax("Open requires a namespace name".to_owned()));
                    }
                    match parse_name(&cs[0]) {
                        Ok(n) => Ok(Command::Open(n)),
                        Err(e) => Err(e),
                    }
                },
                SyntaxKind::End => {
                    if cs.len() == 0 {
                        return Ok(Command::End(None));
                    }
                    match parse_name(&cs[0]) {
                        Ok(n) => Ok(Command::End(Some(n))),
                        Err(e) => Err(e),
                    }
                },
                SyntaxKind::Section => {
                    if cs.len() == 0 {
                        return Ok(Command::Section(None));
                    }
                    match parse_name(&cs[0]) {
                        Ok(n) => Ok(Command::Section(Some(n))),
                        Err(e) => Err(e),
                    }
                },
                SyntaxKind::Def => {
                    if cs.len() < 3 {
                        return Err(ElabError::InvalidSyntax("Def requires name, parameters/type, and value".to_owned()));
                    }
                    let name = match parse_name(&cs[0]) {
                        Ok(n) => n,
                        Err(e) => {
                            return Err(e);
                        },
                    };
                    match def_value_index(cs) {
                        Some(v) => Ok(Command::Def { name, value_index: v }),
                        None => Err(ElabError::InvalidSyntax("Def missing := value".to_owned())),
                    }
                },
                SyntaxKind::Theorem => {
                    if cs.len() < 4 {
                        return Err(ElabError::InvalidSyntax("Theorem requires name, type, and proof".to_owned()));
                    }
                    let name = match parse_name(&cs[0]) {
                        Ok(n) => n,
                        Err(e) => {
                            return Err(e);
                        },
                    };
                    let (ty, pf) = theorem_indices(cs);
                    let t = match ty {
                        Some(t) => {
                            if t < cs.len() {
                                t
                            } else {
                                return Err(ElabError::InvalidSyntax("Theorem missing type".to_owned()));
                            }
                        },
                        None => {
                            return Err(ElabError::InvalidSyntax("Theorem missing type".to_owned()));
                        },
                    };
                    match pf {
                        Some(p) => Ok(Command::Theorem { name, type_index: t, proof_index: p }),
                        None => Err(ElabError::InvalidSyntax("Theorem missing := proof".to_owned())),
                    }
                },
                SyntaxKind::Axiom | SyntaxKind::Constant => {
                    if cs.len() < 2 {
                        return Err(ElabError::InvalidSyntax("Axiom requires name and type".to_owned()));
                    }
                    let name = match parse_name(&cs[0]) {
                        Ok(n) => n,
                        Err(e) => {
                            return Err(e);
                        },
                    };
                    match axiom_type_index(cs) {
                        Some(t) => {
                            if t < cs.len() {
                                Ok(Command::Axiom { name, type_index: t })
                            } else {
                                Err(ElabError::InvalidSyntax("Axiom missing type".to_owned()))
                            }
                        },
                        None => Err(ElabError::InvalidSyntax("Axiom missing type".to_owned())),
                    }
                },
                SyntaxKind::Variable => {
                    if cs.len() == 0 {
                        return Err(ElabError::InvalidSyntax("Variable requires at least one binder".to_owned()));
                    }
                    let mut k: usize = 0;
                    while k < cs.len()
                        invariant
                            *syntax == Syntax::Node(*node),
                            node.kind == SyntaxKind::Variable,
                            cs@ == node.children@,
                            k <= cs@.len(),
                            forall|i: int| 0 <= i < k ==> (#[trigger] cs@[i]) is Node,
                        decreases cs@.len() - k,
                    {
                        match &cs[k] {
                            Syntax::Node(_) => {},
                            _ => {
                                return Err(ElabError::InvalidSyntax("Invalid variable binder".to_owned()));
                            },
                        }
                        k += 1;
                    }
                    Ok(Command::Variable { binders: cs.len() })
                },
                SyntaxKind::Universe => Err(ElabError::UnsupportedFeature("universe elaboration not yet implemented".to_owned())),
                SyntaxKind::Inductive => Err(ElabError::UnsupportedFeature("inductive elaboration not yet implemented".to_owned())),
                _ => Err(ElabError::UnsupportedSyntax(node.kind)),
            }
        },
        _ => Err(ElabError::InvalidSyntax("Expected command syntax".to_owned())),
    }
}

/// `end n` closes what `namespace n` opens: read from a `namespace` node and
/// an `end` node with the same children, the end command carries exactly the
/// name that the namespace command opens, and each is read exactly when the
/// other is.
pub proof fn law_end_names_namespace(
    ns_node: Syntax,
    end_node: Syntax,
    r1: Result<Command, ElabError>,
    r2: Result<Command, ElabError>,
)
    requires
        ns_node matches Syntax::Node(a) && end_node matches Syntax::Node(b) && a.kind == SyntaxKind::Namespace
            && b.kind == SyntaxKind::End && a.children@ == b.children@ && a.children@.len() > 0,
        command_result(ns_node, r1),
        command_result(end_node, r2),
    ensures
        r1 is Ok <==> r2 is Ok,
        r1 matches Ok(Command::Namespace(n1)) ==> (r2 matches Ok(Command::End(Some(n2))) && n2.text@ == n1.text@),
{
}

/// `end` with nothing after it names no namespace.
pub proof fn law_bare_end(end_node: Syntax, r: Result<Command, ElabError>)
    requires
        end_node matches Syntax::Node(b) && b.kind == SyntaxKind::End && b.children@.len() == 0,
        command_result(end_node, r),
    ensures
        r matches Ok(Command::End(n)) && n is None,
{
}

/// `value_index_from` finds the first `:=` atom from `i` on that has a
/// child after it.
proof fn lemma_value_index_from(cs: Seq<Syntax>, i: int)
    requires
        0 <= i,
    ensures
        match value_index_from(cs, i) {
            Some(v) => i + 1 <= v < cs.len() && is_atom_text(cs[v - 1], ":="@) && forall|j: int|
                i <= j < v - 1 ==> !#[trigger] is_atom_text(cs[j], ":="@),
            None => forall|j: int| i <= j < cs.len() - 1 ==> !#[trigger] is_atom_text(cs[j], ":="@),
        },
    decreases cs.len() - i,
{
    if i < cs.len() && !(is_atom_text(cs[i], ":="@) && i + 1 < cs.len()) {
        lemma_value_index_from(cs, i + 1);
    }
}

/// `type_index_from` finds the first `:` atom from `i` on.
proof fn lemma_type_index_from(cs: Seq<Syntax>, i: int)
    requires
        0 <= i,
    ensures
        match type_index_from(cs, i) {
            Some(t) => i + 1 <= t <= cs.len() && is_atom_text(cs[t - 1], ":"@) && forall|j: int|
                i <= j < t - 1 ==> !#[trigger] is_atom_text(cs[j], ":"@),
            None => forall|j: int| i <= j < cs.len() ==> !#[trigger] is_atom_text(cs[j], ":"@),
        },
    decreases cs.len() - i,
{
    if i < cs.len() && !is_atom_text(cs[i], ":"@) {
        lemma_type_index_from(cs, i + 1);
    }
}

/// `theorem_scan` from `i` without a statement yet: the statement follows
/// the first `:` atom, and the proof the first `:=` atom that has a child
/// after it, which comes after that `:`.
proof fn lemma_theorem_scan(cs: Seq<Syntax>, i: int, ty: Option<int>)
    requires
        0 <= i,
        ty matches Some(t) ==> 1 <= t <= i && is_atom_text(cs[t - 1], ":"@),
    ensures
        ({
            let (a, b) = theorem_scan(cs, i, ty);
            &&& (ty is Some ==> a == ty)
            &&& (a matches Some(t) ==> b matches Some(p) ==> {
                &&& 1 <= t < p < cs.len()
                &&& i + 1 <= p
                &&& is_atom_text(cs[t - 1], ":"@)
                &&& is_atom_text(cs[p - 1], ":="@)
                &&& forall|j: int| i <= j < p - 1 ==> !#[trigger] is_atom_text(cs[j], ":="@)
                &&& (ty is None ==> i + 1 <= t && forall|j: int| i <= j < t - 1 ==> !#[trigger] is_atom_text(cs[j], ":"@))
            })
        }),
    decreases cs.len() - i,
{
    reveal_strlit(":");
    reveal_strlit(":=");
    if i < cs.len() {
        if is_atom_text(cs[i], ":"@) && ty is None {
            assert(":"@.len() != ":="@.len());
            assert(!is_atom_text(cs[i], ":="@));
            lemma_theorem_scan(cs, i + 1, Some(i + 1));
        } else if is_atom_text(cs[i], ":="@) && i + 1 < cs.len() {
        } else {
            lemma_theorem_scan(cs, i + 1, ty);
        }
    }
}

/// A definition read from a `def` node names the first child's name and
/// takes its value from the child right after the first `:=` atom that
/// has a child after it.
pub proof fn law_def_value(s: Syntax, r: Result<Command, ElabError>)
    requires
        s matches Syntax::Node(n) && n.kind == SyntaxKind::Def,
        command_result(s, r),
    ensures
        r matches Ok(Command::Def { name, value_index }) ==> ({
            let cs = s->Node_0.children@;
            &&& name_of(cs[0]) == Ok::<Seq<char>, Seq<char>>(name.text@)
            &&& 1 <= value_index < cs.len()
            &&& is_atom_text(cs[value_index - 1], ":="@)
            &&& forall|j: int| 0 <= j < value_index - 1 ==> !#[trigger] is_atom_text(cs[j], ":="@)
        }),
{
    lemma_value_index_from(s->Node_0.children@, 0);
}

/// A theorem read from a `theorem` node names the first child's name; its
/// statement follows the first `:` atom and its proof the first `:=` atom
/// (which has a child after it), the statement before the proof.
pub proof fn law_theorem_parts(s: Syntax, r: Result<Command, ElabError>)
    requires
        s matches Syntax::Node(n) && n.kind == SyntaxKind::Theorem,
        command_result(s, r),
    ensures
        r matches Ok(Command::Theorem { name, type_index, proof_index }) ==> ({
            let cs = s->Node_0.children@;
            &&& name_of(cs[0]) == Ok::<Seq<char>, Seq<char>>(name.text@)
            &&& 1 <= type_index < proof_index < cs.len()
            &&& is_atom_text(cs[type_index - 1], ":"@)
            &&& is_atom_text(cs[proof_index - 1], ":="@)
            &&& forall|j: int| 0 <= j < type_index - 1 ==> !#[trigger] is_atom_text(cs[j], ":"@)
            &&& forall|j: int| 0 <= j < proof_index - 1 ==> !#[trigger] is_atom_text(cs[j], ":="@)
        }),
{
    lemma_theorem_scan(s->Node_0.children@, 0, None);
}

/// An axiom or constant read from its node names the first child's name
/// and takes its type from the child right after the first `:` atom.
pub proof fn law_axiom_type(s: Syntax, r: Result<Command, ElabError>)
    requires
        s matches Syntax::Node(n) && (n.kind == SyntaxKind::Axiom || n.kind == SyntaxKind::Constant),
        command_result(s, r),
    ensures
        r matches Ok(Command::Axiom { name, type_index }) ==> ({
            let cs = s->Node_0.children@;
            &&& name_of(cs[0]) == Ok::<Seq<char>, Seq<char>>(name.text@)
            &&& 1 <= type_index < cs.len()
            &&& is_atom_text(cs[type_index - 1], ":"@)
            &&& forall|j: int| 0 <= j < type_index - 1 ==> !#[trigger] is_atom_text(cs[j], ":"@)
        }),
{
    lemma_type_index_from(s->Node_0.children@, 0);
}

/// A `variable` command is read exactly when it has children and each is a
/// node, and then it counts one binder per child.
pub proof fn law_variable_binders(s: Syntax, r: Result<Command, ElabError>)
    requires
        s matches Syntax::Node(n) && n.kind == SyntaxKind::Variable,
        command_result(s, r),
    ensures
        ({
            let cs = s->Node_0.children@;
            &&& r is Ok <==> (cs.len() > 0 && forall|i: int| 0 <= i < cs.len() ==> (#[trigger] cs[i]) is Node)
            &&& r matches Ok(Command::Variable { binders }) ==> binders == cs.len()
            &&& r is Ok ==> r matches Ok(Command::Variable { binders })
        }),
{
}

/// `open n` and `namespace n` name the same namespace: read from an `open`
/// node and a `namespace` node with the same children, both are read or
/// neither, with the same name.
pub proof fn law_open_names_namespace(ns_node: Syntax, open_node: Syntax, r1: Result<Command, ElabError>, r2: Result<Command, ElabError>)
    requires
        ns_node matches Syntax::Node(a) && open_node matches Syntax::Node(b) && a.kind == SyntaxKind::Namespace
            && b.kind == SyntaxKind::Open && a.children@ == b.children@,
        command_result(ns_node, r1),
        command_result(open_node, r2),
    ensures
        r1 is Ok <==> r2 is Ok,
        r1 matches Ok(Command::Namespace(n1)) ==> (r2 matches Ok(Command::Open(n2)) && n2.text@ == n1.text@),
{
}

/// A renaming read after one more insertion of `from → to` maps `from` to
/// `to` (the latest insertion wins), and maps every other name as before.
pub proof fn law_renaming_insert(before: Renaming, after: Renaming, from: Seq<char>, to: Seq<char>, other: Seq<char>)
    requires
        after.pairs_spec() == before.pairs_spec().push((from, to)),
        other != from,
    ensures
        after.map().contains_key(from),
        after.map()[from] == to,
        after.map().contains_key(other) == before.map().contains_key(other),
        before.map().contains_key(other) ==> after.map()[other] == before.map()[other],
{
    assert(after.pairs_spec().drop_last() =~= before.pairs_spec());
}

/// A new renaming maps no name.
pub proof fn law_renaming_empty(r: Renaming, name: Seq<char>)
    requires
        r.pairs_spec() == Seq::<(Seq<char>, Seq<char>)>::empty(),
    ensures
        !r.map().contains_key(name),
{
}

/// An import of `module` followed by one option: `only (names)` imports just
/// those names, `hiding (names)` all but those, `renaming (pairs)` renames
/// by those pairs; the other two options keep their defaults (everything,
/// nothing hidden, nothing renamed).
pub proof fn law_import_single_option(cs: Seq<Syntax>, module: Seq<char>)
    requires
        cs.len() == 3,
    ensures
        is_atom_text(cs[1], "only"@) && name_list_of(cs[2]) is Ok ==> import_options_of(cs, module) == Ok::<ImportModel, Seq<char>>(
            ImportModel { module, only: Some(name_list_of(cs[2])->Ok_0), hiding: Seq::empty(), renaming: Seq::empty() },
        ),
        is_atom_text(cs[1], "hiding"@) && name_list_of(cs[2]) is Ok ==> import_options_of(cs, module) == Ok::<ImportModel, Seq<char>>(
            ImportModel { module, only: None, hiding: name_list_of(cs[2])->Ok_0, renaming: Seq::empty() },
        ),
        is_atom_text(cs[1], "renaming"@) && renaming_of(cs[2]) is Ok ==> import_options_of(cs, module) == Ok::<ImportModel, Seq<char>>(
            ImportModel { module, only: None, hiding: Seq::empty(), renaming: renaming_of(cs[2])->Ok_0 },
        ),
        is_atom_text(cs[1], "only"@) && name_list_of(cs[2]) is Err ==> import_options_of(cs, module) is Err,
{
    reveal_strlit("only");
    reveal_strlit("hiding");
    reveal_strlit("renaming");
    let st = ImportModel { module, only: None, hiding: Seq::empty(), renaming: Seq::empty() };
    if is_atom_text(cs[1], "only"@) && name_list_of(cs[2]) is Ok {
        let st2 = ImportModel { only: Some(name_list_of(cs[2])->Ok_0), ..st };
        assert(options_from(cs, 3, st2) == Ok::<ImportModel, Seq<char>>(st2));
        assert(options_from(cs, 1, st) == options_from(cs, 3, st2));
    }
    if is_atom_text(cs[1], "hiding"@) && name_list_of(cs[2]) is Ok {
        let st2 = ImportModel { hiding: name_list_of(cs[2])->Ok_0, ..st };
        assert(options_from(cs, 3, st2) == Ok::<ImportModel, Seq<char>>(st2));
        assert("only"@.len() != "hiding"@.len());
        assert(!is_atom_text(cs[1], "only"@));
        assert(options_from(cs, 1, st) == options_from(cs, 3, st2));
    }
    if is_atom_text(cs[1], "renaming"@) && renaming_of(cs[2]) is Ok {
        let st2 = ImportModel { renaming: renaming_of(cs[2])->Ok_0, ..st };
        assert(options_from(cs, 3, st2) == Ok::<ImportModel, Seq<char>>(st2));
        assert("only"@.len() != "renaming"@.len());
        assert("hiding"@.len() != "renaming"@.len());
        assert(!is_atom_text(cs[1], "only"@));
        assert(!is_atom_text(cs[1], "hiding"@));
        assert(options_from(cs, 1, st) == options_from(cs, 3, st2));
    }
}

/// Of two `only` options the later one counts.
pub proof fn law_import_later_only_wins(cs: Seq<Syntax>, module: Seq<char>)
    requires
        cs.len() == 5,
        is_atom_text(cs[1], "only"@),
        is_atom_text(cs[3], "only"@),
        name_list_of(cs[2]) is Ok,
        name_list_of(cs[4]) is Ok,
    ensures
        import_options_of(cs, module) matches Ok(x) && x.only == Some(name_list_of(cs[4])->Ok_0),
{
    reveal_strlit("only");
    reveal_strlit("hiding");
    reveal_strlit("renaming");
    let st = ImportModel { module, only: None, hiding: Seq::empty(), renaming: Seq::empty() };
    let st2 = ImportModel { only: Some(name_list_of(cs[2])->Ok_0), ..st };
    let st3 = ImportModel { only: Some(name_list_of(cs[4])->Ok_0), ..st2 };
    assert(options_from(cs, 5, st3) == Ok::<ImportModel, Seq<char>>(st3));
    assert(options_from(cs, 3, st2) == options_from(cs, 5, st3));
    assert(options_from(cs, 1, st) == options_from(cs, 3, st2));
}

/// `section n` names the same as `namespace n`: read from a `section` node
/// and a `namespace` node with the same children, the section carries
/// exactly the name the namespace opens, and each is read exactly when the
/// other is; a bare `section` names nothing.
pub proof fn law_section_names(ns_node: Syntax, sec_node: Syntax, r1: Result<Command, ElabError>, r2: Result<Command, ElabError>)
    requires
        ns_node matches Syntax::Node(a) && sec_node matches Syntax::Node(b) && a.kind == SyntaxKind::Namespace
            && b.kind == SyntaxKind::Section && a.children@ == b.children@,
        command_result(ns_node, r1),
        command_result(sec_node, r2),
    ensures
        sec_node->Node_0.children@.len() == 0 ==> (r2 matches Ok(Command::Section(n)) && n is None),
        sec_node->Node_0.children@.len() > 0 ==> (r1 is Ok <==> r2 is Ok),
        r1 matches Ok(Command::Namespace(n1)) ==> (r2 matches Ok(Command::Section(Some(n2))) && n2.text@ == n1.text@),
{
}

} // verus!
