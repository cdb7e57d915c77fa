//! Theorems of a parsed module: their names, and their heads (name,
//! parameters and statement) for comparing two versions of a file.
use vstd::prelude::*;
use crate::input::str_chars;
use crate::syntax::{Syntax, SyntaxKind, SyntaxNode};

verus! {

/// The name of a theorem whose children are `cs`: its first child, if that
/// is an atom.
pub open spec fn theorem_name_of(cs: Seq<Syntax>) -> Option<Seq<char>> {
    if cs.len() > 0 && cs[0] is Atom {
        Some(cs[0]->Atom_0.value@)
    } else {
        None
    }
}

/// The names of the theorems in `s`, in the order in which a walk that
/// visits a node before its children meets them.
pub open spec fn theorem_names(s: Syntax) -> Seq<Seq<char>>
    decreases s,
{
    match s {
        Syntax::Node(n) => {
            let own: Seq<Seq<char>> = if n.kind == SyntaxKind::Theorem {
                match theorem_name_of(n.children@) {
                    Some(x) => seq![x],
                    None => Seq::empty(),
                }
            } else {
                Seq::empty()
            };
            own + theorem_names_in(n.children@)
        },
        _ => Seq::empty(),
    }
}

/// The names of the theorems in each of `cs`, one tree after the other.
pub open spec fn theorem_names_in(cs: Seq<Syntax>) -> Seq<Seq<char>>
    decreases cs,
{
    if cs.len() == 0 {
        Seq::empty()
    } else {
        theorem_names(cs[0]) + theorem_names_in(cs.drop_first())
    }
}

/// The texts of a list of strings.
pub open spec fn texts(v: Seq<String>) -> Seq<Seq<char>> {
    v.map_values(|s: String| s@)
}

/// Walking one more tree adds its names at the end.
pub proof fn lemma_theorem_names_in_push(cs: Seq<Syntax>, s: Syntax)
    ensures
        theorem_names_in(cs.push(s)) == theorem_names_in(cs) + theorem_names(s),
    decreases cs.len(),
{
    if cs.len() == 0 {
        assert(cs.push(s).drop_first() =~= Seq::<Syntax>::empty());
        assert(theorem_names_in(Seq::<Syntax>::empty()) == Seq::<Seq<char>>::empty());
        assert(theorem_names(s) + Seq::<Seq<char>>::empty() =~= theorem_names(s));
    } else {
        assert(cs.push(s).drop_first() =~= cs.drop_first().push(s));
        lemma_theorem_names_in_push(cs.drop_first(), s);
        assert(cs.push(s)[0] == cs[0]);
        assert(theorem_names(cs[0]) + (theorem_names_in(cs.drop_first()) + theorem_names(s))
            =~= (theorem_names(cs[0]) + theorem_names_in(cs.drop_first())) + theorem_names(s));
    }
}

/// The name of a theorem whose children are `children` (see
/// `theorem_name_of`).
pub fn extract_theorem_name(children: &[Syntax]) -> (r: Option<String>)
    ensures
        match r {
            Some(x) => theorem_name_of(children@) == Some(x@),
            None => theorem_name_of(children@) is None,
        },
{
    if children.len() == 0 {
        return None;
    }
    match &children[0] {
        Syntax::Atom(atom) => Some(atom.value.clone()),
        _ => None,
    }
}

/// Appends to `names` the names of the theorems in `syntax` (see
/// `theorem_names`).
pub fn collect_theorem_names(syntax: &Syntax, names: &mut Vec<String>)
    ensures
        texts(final(names)@) == texts(old(names)@) + theorem_names(*syntax),
    decreases syntax,
{
    match syntax {
        Syntax::Node(node) => {
            let ghost before = texts(names@);
            if node.kind == SyntaxKind::Theorem {
                match extract_theorem_name(node.children.as_slice()) {
                    Some(name) => {
                        names.push(name);
                    },
                    None => {},
                }
            }
            let ghost own = texts(names@).skip(before.len() as int);
            assert(texts(names@) == before + own);
            let ghost cs = node.children@;
            let mut k: usize = 0;
            while k < node.children.len()
                invariant
                    *syntax == Syntax::Node(*node),
                    cs == node.children@,
                    k <= cs.len(),
                    texts(names@) == before + own + theorem_names_in(cs.subrange(0, k as int)),
                decreases cs.len() - k,
            {
                proof {
                    let ghost n: SyntaxNode = **node;
                    assert(decreases_to!(*syntax => syntax->Node_0));
                    assert(decreases_to!(n => n.children));
                    assert(decreases_to!(n.children => n.children@));
                    assert(decreases_to!(n.children@ => n.children@[k as int]));
                    assert(decreases_to!(*syntax => node.children@[k as int]));
                }
                collect_theorem_names(&node.children[k], names);
                proof {
                    assert(cs.subrange(0, k + 1) =~= cs.subrange(0, k as int).push(cs[k as int]));
                    lemma_theorem_names_in_push(cs.subrange(0, k as int), cs[k as int]);
                }
                k += 1;
            }
            assert(cs.subrange(0, cs.len() as int) =~= cs);
        },
        _ => {
            assert(texts(names@) =~= texts(names@) + Seq::<Seq<char>>::empty());
        },
    }
}

/// The shape of a syntax tree without positions or trivia: node kinds,
/// atom texts and missing pieces.
pub ghost enum ReprModel {
    Node(SyntaxKind, Seq<ReprModel>),
    Atom(Seq<char>),
    Missing,
}

/// The shape of `s`.
pub open spec fn repr_of(s: Syntax) -> ReprModel
    decreases s,
{
    match s {
        Syntax::Node(n) => ReprModel::Node(n.kind, reprs_of(n.children@)),
        Syntax::Atom(a) => ReprModel::Atom(a.value@),
        Syntax::Missing => ReprModel::Missing,
    }
}

/// The shapes of each of `cs`.
pub open spec fn reprs_of(cs: Seq<Syntax>) -> Seq<ReprModel>
    decreases cs,
{
    if cs.len() == 0 {
        Seq::empty()
    } else {
        seq![repr_of(cs[0])] + reprs_of(cs.drop_first())
    }
}

/// `reprs_of` maps each tree to its shape.
pub proof fn lemma_reprs_of(cs: Seq<Syntax>)
    ensures
        reprs_of(cs).len() == cs.len(),
        forall|i: int| 0 <= i < cs.len() ==> #[trigger] reprs_of(cs)[i] == repr_of(cs[i]),
    decreases cs.len(),
{
    if cs.len() > 0 {
        lemma_reprs_of(cs.drop_first());
        assert forall|i: int| 0 <= i < cs.len() implies #[trigger] reprs_of(cs)[i] == repr_of(cs[i]) by {
            if i > 0 {
                assert(cs.drop_first()[i - 1] == cs[i]);
            }
        }
    }
}

/// The shape of a syntax tree, kept for comparing.
#[derive(Debug)]
pub enum SyntaxRepr {
    Node { kind: SyntaxKind, children: Vec<SyntaxRepr> },
    Atom(String),
    Missing,
}

/// What `r` stands for.
pub open spec fn model_of(r: SyntaxRepr) -> ReprModel
    decreases r,
{
    match r {
        SyntaxRepr::Node { kind, children } => ReprModel::Node(kind, models_of(children@)),
        SyntaxRepr::Atom(a) => ReprModel::Atom(a@),
        SyntaxRepr::Missing => ReprModel::Missing,
    }
}

/// What each of `rs` stands for.
pub open spec fn models_of(rs: Seq<SyntaxRepr>) -> Seq<ReprModel>
    decreases rs,
{
    if rs.len() == 0 {
        Seq::empty()
    } else {
        seq![model_of(rs[0])] + models_of(rs.drop_first())
    }
}

/// `models_of` maps each shape to what it stands for.
pub proof fn lemma_models_of(rs: Seq<SyntaxRepr>)
    ensures
        models_of(rs).len() == rs.len(),
        forall|i: int| 0 <= i < rs.len() ==> #[trigger] models_of(rs)[i] == model_of(rs[i]),
    decreases rs.len(),
{
    if rs.len() > 0 {
        lemma_models_of(rs.drop_first());
        assert forall|i: int| 0 <= i < rs.len() implies #[trigger] models_of(rs)[i] == model_of(rs[i]) by {
            if i > 0 {
                assert(rs.drop_first()[i - 1] == rs[i]);
            }
        }
    }
}

/// The shape of `syntax` (see `repr_of`).
pub fn syntax_to_repr(syntax: &Syntax) -> (r: SyntaxRepr)
    ensures
        model_of(r) == repr_of(*syntax),
    decreases syntax,
{
    match syntax {
        Syntax::Node(node) => {
            let ghost cs = node.children@;
            let mut children: Vec<SyntaxRepr> = Vec::new();
            let mut k: usize = 0;
            while k < node.children.len()
                invariant
                    *syntax == Syntax::Node(*node),
                    cs == node.children@,
                    k <= cs.len(),
                    children@.len() == k,
                    forall|i: int| 0 <= i < k ==> model_of(#[trigger] children@[i]) == repr_of(cs[i]),
                decreases cs.len() - k,
            {
                proof {
                    let ghost n: SyntaxNode = **node;
                    assert(decreases_to!(*syntax => syntax->Node_0));
                    assert(decreases_to!(n => n.children));
                    assert(decreases_to!(n.children => n.children@));
                    assert(decreases_to!(n.children@ => n.children@[k as int]));
                }
                let c = syntax_to_repr(&node.children[k]);
                children.push(c);
                k += 1;
            }
            proof {
                lemma_reprs_of(cs);
                lemma_models_of(children@);
                assert(models_of(children@) =~= reprs_of(cs));
            }
            SyntaxRepr::Node { kind: node.kind, children }
        },
        Syntax::Atom(atom) => SyntaxRepr::Atom(atom.value.clone()),
        Syntax::Missing => SyntaxRepr::Missing,
    }
}

/// Do `a` and `b` stand for the same shape?
pub fn same_repr(a: &SyntaxRepr, b: &SyntaxRepr) -> (r: bool)
    ensures
        r == (model_of(*a) == model_of(*b)),
    decreases a,
{
    match (a, b) {
        (SyntaxRepr::Node { kind: ka, children: ca }, SyntaxRepr::Node { kind: kb, children: cb }) => {
            proof {
                lemma_models_of(ca@);
                lemma_models_of(cb@);
            }
            if *ka != *kb || ca.len() != cb.len() {
                return false;
            }
            let mut k: usize = 0;
            while k < ca.len()
                invariant
                    *a == (SyntaxRepr::Node { kind: *ka, children: *ca }),
                    *b == (SyntaxRepr::Node { kind: *kb, children: *cb }),
                    ca@.len() == cb@.len(),
                    k <= ca@.len(),
                    forall|i: int| 0 <= i < k ==> model_of(#[trigger] ca@[i]) == model_of(cb@[i]),
                decreases ca@.len() - k,
            {
                proof {
                    assert(decreases_to!(*a => *ca));
                    assert(decreases_to!(*ca => ca@));
                    assert(decreases_to!(ca@ => ca@[k as int]));
                }
                if !same_repr(&ca[k], &cb[k]) {
                    proof {
                        lemma_models_of(ca@);
                        lemma_models_of(cb@);
                        assert(models_of(ca@)[k as int] != models_of(cb@)[k as int]);
                    }
                    return false;
                }
                k += 1;
            }
            proof {
                lemma_models_of(ca@);
                lemma_models_of(cb@);
                assert(models_of(ca@) =~= models_of(cb@));
            }
            true
        },
        (SyntaxRepr::Atom(x), SyntaxRepr::Atom(y)) => *x == *y,
        (SyntaxRepr::Missing, SyntaxRepr::Missing) => true,
        _ => false,
    }
}

/// The head of a theorem as the tools compare it: its name, the shapes of
/// its parameters and the shape of its statement.
pub ghost struct HeadModel {
    pub name: Seq<char>,
    pub params: Seq<ReprModel>,
    pub statement: ReprModel,
}

/// The head of a theorem whose children are `cs`: a name atom first, then
/// the parameters, the statement and the proof. `None` when there are fewer
/// than two children or the first is not an atom; with exactly two the
/// name stands where the statement would.
pub open spec fn head_of(cs: Seq<Syntax>) -> Option<HeadModel> {
    if cs.len() < 2 || !(cs[0] is Atom) {
        None
    } else {
        Some(HeadModel {
            name: cs[0]->Atom_0.value@,
            params: if cs.len() >= 3 { reprs_of(cs.subrange(1, cs.len() - 2)) } else { Seq::empty() },
            statement: repr_of(cs[cs.len() - 2]),
        })
    }
}

/// The head of a theorem (see `head_of`).
#[derive(Debug)]
pub struct TheoremHead {
    pub name: String,
    pub params: Vec<SyntaxRepr>,
    pub type_expr: SyntaxRepr,
}

/// What `h` stands for.
pub open spec fn head_model(h: TheoremHead) -> HeadModel {
    HeadModel { name: h.name@, params: models_of(h.params@), statement: model_of(h.type_expr) }
}

/// The head of a theorem whose children are `children` (see `head_of`).
pub fn extract_theorem_head(children: &[Syntax]) -> (r: Option<TheoremHead>)
    ensures
        match r {
            Some(h) => head_of(children@) == Some(head_model(h)),
            None => head_of(children@) is None,
        },
{
    if children.len() == 0 {
        return None;
    }
    let name = match &children[0] {
        Syntax::Atom(atom) => atom.value.clone(),
        _ => {
            return None;
        },
    };
    if children.len() < 2 {
        return None;
    }
    let n = children.len();
    let type_expr = syntax_to_repr(&children[n - 2]);
    let mut params: Vec<SyntaxRepr> = Vec::new();
    let mut i: usize = 1;
    while i < n - 2
        invariant
            n == children@.len(),
            n >= 2,
            1 <= i,
            i <= n - 2 || i == 1,
            params@.len() == i - 1,
            forall|k: int| 0 <= k < i - 1 ==> model_of(#[trigger] params@[k]) == repr_of(children@[k + 1]),
        decreases n - i,
    {
        params.push(syntax_to_repr(&children[i]));
        i += 1;
    }
    proof {
        lemma_models_of(params@);
        if n >= 3 {
            let sub = children@.subrange(1, n - 2);
            lemma_reprs_of(sub);
            assert(models_of(params@) =~= reprs_of(sub));
        } else {
            assert(models_of(params@) =~= Seq::<ReprModel>::empty());
        }
    }
    Some(TheoremHead { name, params, type_expr })
}

/// Do `a` and `b` stand for the same head?
pub fn asts_equal(a: &TheoremHead, b: &TheoremHead) -> (r: bool)
    ensures
        r == (head_model(*a) == head_model(*b)),
{
    proof {
        lemma_models_of(a.params@);
        lemma_models_of(b.params@);
    }
    if a.name != b.name || a.params.len() != b.params.len() {
        return false;
    }
    let mut k: usize = 0;
    while k < a.params.len()
        invariant
            a.params@.len() == b.params@.len(),
            k <= a.params@.len(),
            forall|i: int| 0 <= i < k ==> model_of(#[trigger] a.params@[i]) == model_of(b.params@[i]),
        decreases a.params@.len() - k,
    {
        if !same_repr(&a.params[k], &b.params[k]) {
            proof {
                lemma_models_of(a.params@);
                lemma_models_of(b.params@);
                assert(models_of(a.params@)[k as int] != models_of(b.params@)[k as int]);
            }
            return false;
        }
        k += 1;
    }
    proof {
        assert(models_of(a.params@) =~= models_of(b.params@));
    }
    same_repr(&a.type_expr, &b.type_expr)
}

/// `p` occurs in `s`.
pub open spec fn has_infix(s: Seq<char>, p: Seq<char>) -> bool {
    exists|i: int| 0 <= i && i + p.len() <= s.len() && #[trigger] s.subrange(i, i + p.len()) == p
}

/// Does `pattern` occur in `s`?
pub fn contains_text(s: &str, pattern: &str) -> (b: bool)
    ensures
        b == has_infix(s@, pattern@),
{
    let t = str_chars(s);
    let p = str_chars(pattern);
    if p.len() > t.len() {
        return false;
    }
    let n = t.len();
    let mut i: usize = 0;
    while i <= t.len() - p.len()
        invariant
            n == t@.len(),
            t@ == s@,
            p@ == pattern@,
            p@.len() <= t@.len(),
            i <= t@.len() - p@.len() + 1,
            forall|k: int| 0 <= k < i ==> #[trigger] t@.subrange(k, k + p@.len()) != p@,
        decreases t@.len() - i,
    {
        let mut j: usize = 0;
        while j < p.len()
            invariant
                n == t@.len(),
                j <= p@.len(),
                i + p@.len() <= t@.len(),
                forall|m: int| 0 <= m < j ==> t@[i + m] == p@[m],
            ensures
                j <= p@.len(),
                j < p@.len() ==> t@[i + j] != p@[j as int],
            decreases p@.len() - j,
        {
            if t[i + j] != p[j] {
                break;
            }
            j += 1;
        }
        if j == p.len() {
            assert(t@.subrange(i as int, i + p@.len()) =~= p@);
            return true;
        }
        assert(t@.subrange(i as int, i + p@.len())[j as int] != p@[j as int]);
        i += 1;
    }
    proof {
        assert forall|k: int| 0 <= k && k + p@.len() <= t@.len() implies #[trigger] t@.subrange(k, k + p@.len()) != p@ by {
            assert(k < i);
        }
    }
    false
}

/// The heads of the theorems in `s` whose names contain `prop:` (a name
/// may be quoted, as in `«prop:...»`), in the order in which a walk that
/// visits a node before its children meets them.
pub open spec fn prop_heads(s: Syntax) -> Seq<HeadModel>
    decreases s,
{
    match s {
        Syntax::Node(n) => {
            let own: Seq<HeadModel> = if n.kind == SyntaxKind::Theorem {
                match head_of(n.children@) {
                    Some(h) => if has_infix(h.name, "prop:"@) { seq![h] } else { Seq::empty() },
                    None => Seq::empty(),
                }
            } else {
                Seq::empty()
            };
            own + prop_heads_in(n.children@)
        },
        _ => Seq::empty(),
    }
}

/// The `prop:` heads in each of `cs`, one tree after the other.
pub open spec fn prop_heads_in(cs: Seq<Syntax>) -> Seq<HeadModel>
    decreases cs,
{
    if cs.len() == 0 {
        Seq::empty()
    } else {
        prop_heads(cs[0]) + prop_heads_in(cs.drop_first())
    }
}

/// Walking one more tree adds its heads at the end.
pub proof fn lemma_prop_heads_in_push(cs: Seq<Syntax>, s: Syntax)
    ensures
        prop_heads_in(cs.push(s)) == prop_heads_in(cs) + prop_heads(s),
    decreases cs.len(),
{
    if cs.len() == 0 {
        assert(cs.push(s).drop_first() =~= Seq::<Syntax>::empty());
        assert(prop_heads_in(Seq::<Syntax>::empty()) == Seq::<HeadModel>::empty());
        assert(prop_heads(s) + Seq::<HeadModel>::empty() =~= prop_heads(s));
    } else {
        assert(cs.push(s).drop_first() =~= cs.drop_first().push(s));
        lemma_prop_heads_in_push(cs.drop_first(), s);
        assert(cs.push(s)[0] == cs[0]);
        assert(prop_heads(cs[0]) + (prop_heads_in(cs.drop_first()) + prop_heads(s))
            =~= (prop_heads(cs[0]) + prop_heads_in(cs.drop_first())) + prop_heads(s));
    }
}

/// No two of `es` have the same name.
pub open spec fn distinct_names(es: Seq<HeadModel>) -> bool {
    forall|i: int, j: int| 0 <= i < j < es.len() ==> (#[trigger] es[i]).name != (#[trigger] es[j]).name
}

/// Where the head named `name` stands in `es`, if any.
pub open spec fn position_of(es: Seq<HeadModel>, name: Seq<char>) -> Option<int> {
    if exists|i: int| 0 <= i < es.len() && (#[trigger] es[i]).name == name {
        Some(choose|i: int| 0 <= i < es.len() && (#[trigger] es[i]).name == name)
    } else {
        None
    }
}

/// The head named `name` in `es`, if any.
pub open spec fn lookup(es: Seq<HeadModel>, name: Seq<char>) -> Option<HeadModel> {
    match position_of(es, name) {
        Some(i) => Some(es[i]),
        None => None,
    }
}

/// `es` with `h` in place of the head of the same name, or added at the end
/// if there is none.
pub open spec fn insert_entry(es: Seq<HeadModel>, h: HeadModel) -> Seq<HeadModel> {
    match position_of(es, h.name) {
        Some(i) => es.update(i, h),
        None => es.push(h),
    }
}

/// `es` after inserting each of `hs` in turn.
pub open spec fn insert_all(es: Seq<HeadModel>, hs: Seq<HeadModel>) -> Seq<HeadModel>
    decreases hs.len(),
{
    if hs.len() == 0 {
        es
    } else {
        insert_all(insert_entry(es, hs[0]), hs.drop_first())
    }
}

/// Inserting `a` and then `b` inserts `a + b`.
pub proof fn lemma_insert_all_concat(es: Seq<HeadModel>, a: Seq<HeadModel>, b: Seq<HeadModel>)
    ensures
        insert_all(insert_all(es, a), b) == insert_all(es, a + b),
    decreases a.len(),
{
    if a.len() == 0 {
        assert(a + b =~= b);
    } else {
        lemma_insert_all_concat(insert_entry(es, a[0]), a.drop_first(), b);
        assert((a + b).drop_first() =~= a.drop_first() + b);
        assert((a + b)[0] == a[0]);
    }
}

/// Inserting keeps the names distinct.
pub proof fn lemma_insert_entry_distinct(es: Seq<HeadModel>, h: HeadModel)
    requires
        distinct_names(es),
    ensures
        distinct_names(insert_entry(es, h)),
{
}

/// In a list with distinct names, the head at `i` is the one its name
/// finds.
proof fn lemma_lookup_at(es: Seq<HeadModel>, i: int)
    requires
        distinct_names(es),
        0 <= i < es.len(),
    ensures
        position_of(es, es[i].name) == Some(i),
        lookup(es, es[i].name) == Some(es[i]),
{
    let c = choose|k: int| 0 <= k < es.len() && (#[trigger] es[k]).name == es[i].name;
    assert(es[i].name == es[i].name);
    if c != i {
        if c < i {
            assert(es[c].name != es[i].name);
        } else {
            assert(es[i].name != es[c].name);
        }
    }
}

/// A table reads back what was written: after inserting `h`, its name
/// finds `h`, every other name finds what it found before, and the names
/// stay distinct.
pub proof fn law_insert_then_lookup(es: Seq<HeadModel>, h: HeadModel, n: Seq<char>)
    requires
        distinct_names(es),
    ensures
        distinct_names(insert_entry(es, h)),
        lookup(insert_entry(es, h), h.name) == Some(h),
        n != h.name ==> lookup(insert_entry(es, h), n) == lookup(es, n),
{
    let es2 = insert_entry(es, h);
    lemma_insert_entry_distinct(es, h);
    match position_of(es, h.name) {
        Some(i) => {
            assert(es[i].name == h.name);
            assert(es2[i] == h);
            lemma_lookup_at(es2, i);
        },
        None => {
            assert(es2[es.len() as int] == h);
            lemma_lookup_at(es2, es.len() as int);
        },
    }
    if n != h.name {
        if exists|k: int| 0 <= k < es.len() && (#[trigger] es[k]).name == n {
            let k = choose|k: int| 0 <= k < es.len() && (#[trigger] es[k]).name == n;
            lemma_lookup_at(es, k);
            assert(es2[k] == es[k]);
            lemma_lookup_at(es2, k);
        } else {
            assert forall|k: int| 0 <= k < es2.len() implies (#[trigger] es2[k]).name != n by {
                if k < es.len() {
                    assert(es2[k] == es[k] || es2[k] == h);
                } else {
                    assert(es2[k] == h);
                }
            }
        }
    }
}

/// A walk over heads that each find themselves in `ds` reports nothing.
proof fn lemma_lean_side_none(ls: Seq<HeadModel>, ds: Seq<HeadModel>)
    requires
        forall|k: int| 0 <= k < ls.len() ==> lookup(ds, (#[trigger] ls[k]).name) == Some(ls[k]),
    ensures
        lean_side(ls, ds) == Seq::<DiffModel>::empty(),
    decreases ls.len(),
{
    if ls.len() > 0 {
        lemma_lean_side_none(ls.drop_last(), ds);
        assert(lookup(ds, ls[ls.len() - 1].name) == Some(ls[ls.len() - 1]));
        assert(Seq::<DiffModel>::empty() + Seq::<DiffModel>::empty() =~= Seq::<DiffModel>::empty());
    }
}

/// A walk over heads whose names all occur in `ls` reports nothing.
proof fn lemma_decl_side_none(ds: Seq<HeadModel>, ls: Seq<HeadModel>)
    requires
        forall|k: int| 0 <= k < ds.len() ==> lookup(ls, (#[trigger] ds[k]).name) is Some,
    ensures
        decl_side(ds, ls) == Seq::<DiffModel>::empty(),
    decreases ds.len(),
{
    if ds.len() > 0 {
        lemma_decl_side_none(ds.drop_last(), ls);
        assert(lookup(ls, ds[ds.len() - 1].name) is Some);
        assert(Seq::<DiffModel>::empty() + Seq::<DiffModel>::empty() =~= Seq::<DiffModel>::empty());
    }
}

/// Comparing a version with itself finds no difference.
pub proof fn law_compare_with_itself(es: Seq<HeadModel>)
    requires
        distinct_names(es),
    ensures
        theorem_differences(es, es) == Seq::<DiffModel>::empty(),
{
    assert forall|k: int| 0 <= k < es.len() implies lookup(es, (#[trigger] es[k]).name) == Some(es[k]) by {
        lemma_lookup_at(es, k);
    }
    lemma_lean_side_none(es, es);
    lemma_decl_side_none(es, es);
    assert(Seq::<DiffModel>::empty() + Seq::<DiffModel>::empty() =~= Seq::<DiffModel>::empty());
}

/// A table of theorem heads by name, as a map from names to heads that
/// keeps its names in the order in which they first came.
pub struct TheoremTable {
    heads: Vec<TheoremHead>,
}

impl TheoremTable {
    /// The heads, in the order in which their names first came.
    pub closed spec fn entries(self) -> Seq<HeadModel> {
        self.heads@.map_values(|h: TheoremHead| head_model(h))
    }

    /// No two heads have the same name.
    pub open spec fn wf(self) -> bool {
        distinct_names(self.entries())
    }

    /// An empty table.
    pub fn new() -> (t: TheoremTable)
        ensures
            t.wf(),
            t.entries() == Seq::<HeadModel>::empty(),
    {
        let t = TheoremTable { heads: Vec::new() };
        assert(t.entries() =~= Seq::<HeadModel>::empty());
        t
    }

    /// How many heads the table holds.
    pub fn len(&self) -> (n: usize)
        ensures
            n == self.entries().len(),
    {
        self.heads.len()
    }

    /// The heads, in the order of `entries`.
    pub fn heads(&self) -> (hs: &[TheoremHead])
        ensures
            hs@.map_values(|h: TheoremHead| head_model(h)) == self.entries(),
    {
        self.heads.as_slice()
    }

    /// Where the head named `name` stands.
    fn find(&self, name: &String) -> (r: Option<usize>)
        requires
            self.wf(),
        ensures
            match r {
                Some(i) => position_of(self.entries(), name@) == Some(i as int) && i < self.entries().len(),
                None => position_of(self.entries(), name@) is None,
            },
    {
        let ghost es = self.entries();
        let mut i: usize = 0;
        while i < self.heads.len()
            invariant
                es == self.entries(),
                distinct_names(es),
                i <= es.len(),
                forall|k: int| 0 <= k < i ==> (#[trigger] es[k]).name != name@,
            decreases es.len() - i,
        {
            if self.heads[i].name == *name {
                proof {
                    assert(es[i as int].name == name@);
                    let c = choose|k: int| 0 <= k < es.len() && (#[trigger] es[k]).name == name@;
                    assert(c == i);
                }
                return Some(i);
            }
            i += 1;
        }
        None
    }

    /// The head named `name`, if any.
    pub fn get(&self, name: &String) -> (r: Option<&TheoremHead>)
        requires
            self.wf(),
        ensures
            match r {
                Some(h) => lookup(self.entries(), name@) == Some(head_model(*h)),
                None => lookup(self.entries(), name@) is None,
            },
    {
        match self.find(name) {
            Some(i) => Some(&self.heads[i]),
            None => None,
        }
    }

    /// Is there a head named `name`?
    pub fn contains_key(&self, name: &String) -> (b: bool)
        requires
            self.wf(),
        ensures
            b == (lookup(self.entries(), name@) is Some),
    {
        self.find(name).is_some()
    }

    /// Puts `head` in place of the head of the same name, or at the end.
    pub fn insert(&mut self, head: TheoremHead)
        requires
            old(self).wf(),
        ensures
            final(self).wf(),
            final(self).entries() == insert_entry(old(self).entries(), head_model(head)),
    {
        let ghost h = head_model(head);
        proof { lemma_insert_entry_distinct(self.entries(), h); }
        match self.find(&head.name) {
            Some(i) => {
                self.heads.set(i, head);
                assert(self.entries() =~= old(self).entries().update(i as int, h));
            },
            None => {
                self.heads.push(head);
                assert(self.entries() =~= old(self).entries().push(h));
            },
        }
    }
}

/// Inserts into `theorems` the heads of the theorems in `syntax` whose
/// names contain `prop:`, in the order of `prop_heads`.
pub fn collect_prop_theorems(syntax: &Syntax, theorems: &mut TheoremTable)
    requires
        old(theorems).wf(),
    ensures
        final(theorems).wf(),
        final(theorems).entries() == insert_all(old(theorems).entries(), prop_heads(*syntax)),
    decreases syntax,
{
    match syntax {
        Syntax::Node(node) => {
            let ghost start = theorems.entries();
            if node.kind == SyntaxKind::Theorem {
                match extract_theorem_head(node.children.as_slice()) {
                    Some(head) => {
                        if contains_text(head.name.as_str(), "prop:") {
                            let ghost h = head_model(head);
                            theorems.insert(head);
                            proof {
                                assert(insert_all(start, seq![h]) == insert_all(insert_entry(start, h), seq![h].drop_first()));
                                assert(seq![h].drop_first() =~= Seq::<HeadModel>::empty());
                            }
                        }
                    },
                    None => {},
                }
            }
            let ghost own: Seq<HeadModel> = if node.kind == SyntaxKind::Theorem {
                match head_of(node.children@) {
                    Some(h) => if has_infix(h.name, "prop:"@) { seq![h] } else { Seq::empty() },
                    None => Seq::empty(),
                }
            } else {
                Seq::empty()
            };
            assert(theorems.entries() == insert_all(start, own));
            let ghost cs = node.children@;
            let mut k: usize = 0;
            while k < node.children.len()
                invariant
                    *syntax == Syntax::Node(*node),
                    cs == node.children@,
                    k <= cs.len(),
                    theorems.wf(),
                    theorems.entries() == insert_all(start, own + prop_heads_in(cs.subrange(0, k as int))),
                decreases cs.len() - k,
            {
                proof {
                    let ghost n: SyntaxNode = **node;
                    assert(decreases_to!(*syntax => syntax->Node_0));
                    assert(decreases_to!(n => n.children));
                    assert(decreases_to!(n.children => n.children@));
                    assert(decreases_to!(n.children@ => n.children@[k as int]));
                }
                let ghost mid = theorems.entries();
                collect_prop_theorems(&node.children[k], theorems);
                proof {
                    let pre = own + prop_heads_in(cs.subrange(0, k as int));
                    lemma_insert_all_concat(start, pre, prop_heads(cs[k as int]));
                    assert(cs.subrange(0, k + 1) =~= cs.subrange(0, k as int).push(cs[k as int]));
                    lemma_prop_heads_in_push(cs.subrange(0, k as int), cs[k as int]);
                    assert(pre + prop_heads(cs[k as int]) =~= own + prop_heads_in(cs.subrange(0, k + 1)));
                }
                k += 1;
            }
            assert(cs.subrange(0, cs.len() as int) =~= cs);
        },
        _ => {
            assert(theorems.entries() == insert_all(theorems.entries(), Seq::<HeadModel>::empty()));
        },
    }
}

/// How two versions of a file differ on one theorem.
pub ghost enum DiffModel {
    /// The theorem has different heads in the two versions.
    HeadDiffers(Seq<char>),
    /// The theorem of the first version is missing from the second.
    MissingInDecl(Seq<char>),
    /// The theorem of the second version is missing from the first.
    MissingInLean(Seq<char>),
}

/// What the first version says of its head `l`, given the heads `ds` of the
/// second.
pub open spec fn lean_step(l: HeadModel, ds: Seq<HeadModel>) -> Seq<DiffModel> {
    match lookup(ds, l.name) {
        Some(d) => if d != l { seq![DiffModel::HeadDiffers(l.name)] } else { Seq::empty() },
        None => seq![DiffModel::MissingInDecl(l.name)],
    }
}

/// What is said of the heads `ls` of the first version, in their order.
pub open spec fn lean_side(ls: Seq<HeadModel>, ds: Seq<HeadModel>) -> Seq<DiffModel>
    decreases ls.len(),
{
    if ls.len() == 0 {
        Seq::empty()
    } else {
        lean_side(ls.drop_last(), ds) + lean_step(ls.last(), ds)
    }
}

/// What is said of the heads `ds` of the second version, in their order:
/// those whose names the first version `ls` lacks.
pub open spec fn decl_side(ds: Seq<HeadModel>, ls: Seq<HeadModel>) -> Seq<DiffModel>
    decreases ds.len(),
{
    if ds.len() == 0 {
        Seq::empty()
    } else {
        decl_side(ds.drop_last(), ls) + if lookup(ls, ds.last().name) is None {
            seq![DiffModel::MissingInLean(ds.last().name)]
        } else {
            Seq::empty()
        }
    }
}

/// The differences between the `prop:` theorems of two versions: first
/// those found walking the first version, then the names only the second
/// has.
pub open spec fn theorem_differences(ls: Seq<HeadModel>, ds: Seq<HeadModel>) -> Seq<DiffModel> {
    lean_side(ls, ds) + decl_side(ds, ls)
}

/// How two versions of a file differ on one theorem (see `DiffModel`).
#[derive(Debug)]
pub enum TheoremDifference {
    HeadDiffers(String),
    MissingInDecl(String),
    MissingInLean(String),
}

/// What `d` stands for.
pub open spec fn diff_model(d: TheoremDifference) -> DiffModel {
    match d {
        TheoremDifference::HeadDiffers(n) => DiffModel::HeadDiffers(n@),
        TheoremDifference::MissingInDecl(n) => DiffModel::MissingInDecl(n@),
        TheoremDifference::MissingInLean(n) => DiffModel::MissingInLean(n@),
    }
}

/// What each of `ds` stands for.
pub open spec fn diff_models(ds: Seq<TheoremDifference>) -> Seq<DiffModel> {
    ds.map_values(|d: TheoremDifference| diff_model(d))
}

/// The differences between the `prop:` theorems of `lean` and of `decl`
/// (see `theorem_differences`); none when they match.
pub fn compare_tables(lean: &TheoremTable, decl: &TheoremTable) -> (r: Vec<TheoremDifference>)
    requires
        lean.wf(),
        decl.wf(),
    ensures
        diff_models(r@) == theorem_differences(lean.entries(), decl.entries()),
{
    let ls = lean.heads();
    let ds = decl.heads();
    let ghost le = lean.entries();
    let ghost de = decl.entries();
    let mut out: Vec<TheoremDifference> = Vec::new();
    let mut k: usize = 0;
    while k < ls.len()
        invariant
            ls@.map_values(|h: TheoremHead| head_model(h)) == le,
            le == lean.entries(),
            de == decl.entries(),
            decl.wf(),
            k <= ls@.len(),
            diff_models(out@) == lean_side(le.subrange(0, k as int), de),
        decreases ls@.len() - k,
    {
        let ghost before = out@;
        let l = &ls[k];
        proof {
            assert(le[k as int] == head_model(*l));
            assert(le.subrange(0, k + 1).drop_last() =~= le.subrange(0, k as int));
            assert(le.subrange(0, k + 1).last() == le[k as int]);
        }
        match decl.get(&l.name) {
            Some(d) => {
                if !asts_equal(l, d) {
                    out.push(TheoremDifference::HeadDiffers(l.name.clone()));
                }
            },
            None => {
                out.push(TheoremDifference::MissingInDecl(l.name.clone()));
            },
        }
        proof {
            assert(diff_models(out@) =~= diff_models(before) + lean_step(le[k as int], de));
        }
        k += 1;
    }
    proof {
        assert(le.subrange(0, ls@.len() as int) =~= le);
    }
    let ghost lean_part = out@;
    let mut k: usize = 0;
    while k < ds.len()
        invariant
            ds@.map_values(|h: TheoremHead| head_model(h)) == de,
            le == lean.entries(),
            de == decl.entries(),
            lean.wf(),
            k <= ds@.len(),
            diff_models(out@) == lean_side(le, de) + decl_side(de.subrange(0, k as int), le),
        decreases ds@.len() - k,
    {
        let ghost before = out@;
        let d = &ds[k];
        proof {
            assert(de[k as int] == head_model(*d));
            assert(de.subrange(0, k + 1).drop_last() =~= de.subrange(0, k as int));
            assert(de.subrange(0, k + 1).last() == de[k as int]);
        }
        if !lean.contains_key(&d.name) {
            out.push(TheoremDifference::MissingInLean(d.name.clone()));
            proof {
                assert(diff_models(out@) =~= diff_models(before) + seq![DiffModel::MissingInLean(de[k as int].name)]);
            }
        } else {
            proof {
                assert(diff_models(before) + Seq::<DiffModel>::empty() =~= diff_models(before));
            }
        }
        k += 1;
    }
    proof {
        assert(de.subrange(0, ds@.len() as int) =~= de);
    }
    out
}

/// `s` ends with `suffix`.
pub open spec fn ends_with(s: Seq<char>, suffix: Seq<char>) -> bool {
    s.len() >= suffix.len() && s.subrange(s.len() - suffix.len(), s.len() as int) == suffix
}

/// A declarations file `X.Decl.lean`.
pub open spec fn is_decl_file(name: Seq<char>) -> bool {
    ends_with(name, ".Decl.lean"@)
}

/// A Lean file `X.lean` that is not a declarations file.
pub open spec fn is_lean_file(name: Seq<char>) -> bool {
    !is_decl_file(name) && ends_with(name, ".lean"@)
}

/// `name` without its last `n` characters.
pub open spec fn strip_last(name: Seq<char>, n: int) -> Seq<char> {
    name.subrange(0, name.len() - n)
}

/// `names[j]` is the declarations file for base name `base`.
pub open spec fn decl_for(names: Seq<Seq<char>>, j: int, base: Seq<char>) -> bool {
    &&& 0 <= j < names.len()
    &&& is_decl_file(names[j])
    &&& strip_last(names[j], 10) == base
}

/// The last declarations file for `base`, if any.
pub open spec fn last_decl_for(names: Seq<Seq<char>>, base: Seq<char>) -> Option<int> {
    if exists|j: int| decl_for(names, j, base) {
        Some(choose|j: int| decl_for(names, j, base) && forall|k: int| j < k < names.len() ==> !decl_for(names, k, base))
    } else {
        None
    }
}

/// The pairs among the first `n` of `names`: each Lean file `X.lean`, in
/// order, with the last declarations file `X.Decl.lean`, if there is one.
pub open spec fn file_pairs(names: Seq<Seq<char>>, n: int) -> Seq<(int, int)>
    decreases n,
{
    if n <= 0 {
        Seq::empty()
    } else {
        let i = n - 1;
        file_pairs(names, n - 1) + if is_lean_file(names[i]) {
            match last_decl_for(names, strip_last(names[i], 5)) {
                Some(j) => seq![(i, j)],
                None => Seq::empty(),
            }
        } else {
            Seq::empty()
        }
    }
}

/// Does `s` end with `suffix`?
fn chars_end_with(s: &Vec<char>, suffix: &str) -> (b: bool)
    ensures
        b == ends_with(s@, suffix@),
{
    let x = str_chars(suffix);
    if x.len() > s.len() {
        return false;
    }
    let n = s.len();
    let d = n - x.len();
    let mut k: usize = 0;
    while k < x.len()
        invariant
            n == s@.len(),
            x@ == suffix@,
            d + x@.len() == s@.len(),
            k <= x@.len(),
            forall|m: int| 0 <= m < k ==> s@[d + m] == x@[m],
        decreases x@.len() - k,
    {
        if s[d + k] != x[k] {
            assert(s@.subrange(d as int, s@.len() as int)[k as int] != x@[k as int]);
            return false;
        }
        k += 1;
    }
    assert(s@.subrange(d as int, s@.len() as int) =~= x@);
    true
}

/// Do the first `la` characters of `a` equal the first `lb` of `b`?
fn same_prefixes(a: &Vec<char>, la: usize, b: &Vec<char>, lb: usize) -> (r: bool)
    requires
        la <= a@.len(),
        lb <= b@.len(),
    ensures
        r == (a@.subrange(0, la as int) == b@.subrange(0, lb as int)),
{
    if la != lb {
        assert(a@.subrange(0, la as int).len() != b@.subrange(0, lb as int).len());
        return false;
    }
    let mut k: usize = 0;
    while k < la
        invariant
            la == lb,
            la <= a@.len(),
            lb <= b@.len(),
            k <= la,
            forall|m: int| 0 <= m < k ==> a@[m] == b@[m],
        decreases la - k,
    {
        if a[k] != b[k] {
            assert(a@.subrange(0, la as int)[k as int] != b@.subrange(0, lb as int)[k as int]);
            return false;
        }
        k += 1;
    }
    assert(a@.subrange(0, la as int) =~= b@.subrange(0, lb as int));
    true
}

/// The Lean files among `names` that have a declarations file, by index:
/// for each `X.lean` in order, the last `X.Decl.lean` (see `file_pairs`).
pub fn pair_theorem_files(names: &[String]) -> (r: Vec<(usize, usize)>)
    ensures
        r@.map_values(|p: (usize, usize)| (p.0 as int, p.1 as int)) == file_pairs(texts(names@), names@.len() as int),
{
    let ghost ns = texts(names@);
    proof {
        reveal_strlit(".lean");
        reveal_strlit(".Decl.lean");
    }
    let mut chars: Vec<Vec<char>> = Vec::new();
    let mut k: usize = 0;
    while k < names.len()
        invariant
            ns == texts(names@),
            k <= names@.len(),
            chars@.len() == k,
            forall|m: int| 0 <= m < k ==> (#[trigger] chars@[m])@ == ns[m],
        decreases names@.len() - k,
    {
        chars.push(str_chars(names[k].as_str()));
        k += 1;
    }
    let mut out: Vec<(usize, usize)> = Vec::new();
    let mut i: usize = 0;
    while i < chars.len()
        invariant
            ns == texts(names@),
            chars@.len() == names@.len(),
            forall|m: int| 0 <= m < chars@.len() ==> (#[trigger] chars@[m])@ == ns[m],
            i <= chars@.len(),
            out@.map_values(|p: (usize, usize)| (p.0 as int, p.1 as int)) == file_pairs(ns, i as int),
        decreases chars@.len() - i,
    {
        let ghost before = out@;
        proof {
            reveal_strlit(".lean");
            reveal_strlit(".Decl.lean");
        }
        let ci = &chars[i];
        if !chars_end_with(ci, ".Decl.lean") && chars_end_with(ci, ".lean") {
            let bi = ci.len() - 5;
            let mut found: Option<usize> = None;
            let mut j: usize = 0;
            while j < chars.len()
                invariant
                    ns == texts(names@),
                    chars@.len() == names@.len(),
                    forall|m: int| 0 <= m < chars@.len() ==> (#[trigger] chars@[m])@ == ns[m],
                    i < chars@.len(),
                    ci == chars@[i as int],
                    bi == ci@.len() - 5,
                    j <= chars@.len(),
                    match found {
                        Some(f) => f < j && decl_for(ns, f as int, strip_last(ns[i as int], 5))
                            && forall|m: int| f < m < j ==> !decl_for(ns, m, strip_last(ns[i as int], 5)),
                        None => forall|m: int| 0 <= m < j ==> !decl_for(ns, m, strip_last(ns[i as int], 5)),
                    },
                decreases chars@.len() - j,
            {
                proof {
                    reveal_strlit(".Decl.lean");
                }
                let cj = &chars[j];
                if chars_end_with(cj, ".Decl.lean") {
                    if same_prefixes(cj, cj.len() - 10, ci, bi) {
                        found = Some(j);
                    }
                }
                proof {
                    assert(cj@ == ns[j as int]);
                    assert(ci@ == ns[i as int]);
                }
                j += 1;
            }
            proof {
                let base = strip_last(ns[i as int], 5);
                match found {
                    Some(f) => {
                        let c = choose|x: int| decl_for(ns, x, base) && forall|m: int| x < m < ns.len() ==> !decl_for(ns, m, base);
                        assert(decl_for(ns, f as int, base));
                        if c != f {
                            if c < f {
                                assert(!decl_for(ns, f as int, base));
                            } else {
                                assert(!decl_for(ns, c, base));
                            }
                        }
                    },
                    None => {},
                }
            }
            match found {
                Some(f) => {
                    out.push((i, f));
                },
                None => {},
            }
        }
        proof {
            assert(file_pairs(ns, i + 1) == file_pairs(ns, i as int) + (if is_lean_file(ns[i as int]) {
                match last_decl_for(ns, strip_last(ns[i as int], 5)) {
                    Some(j) => seq![(i as int, j)],
                    None => Seq::<(int, int)>::empty(),
                }
            } else {
                Seq::<(int, int)>::empty()
            }));
            assert(out@.map_values(|p: (usize, usize)| (p.0 as int, p.1 as int)) =~= file_pairs(ns, i + 1));
        }
        i += 1;
    }
    out
}

} // verus!
