//! Declarations: `constant c : T`, `axiom ax : P`, structure fields
//! `name : T`, `deriving` clauses, and the keywords that start a command.
//! A term parser given by the caller reads the types.
use vstd::prelude::*;
use crate::attributes::{ErrSpec, Lex, err_is, ident_lex};
use crate::binder::binder_result;
use crate::error::{ParseError, ParserResult, is_expected};
use crate::interpolation::TermCall;
use crate::literals::expect_error;
use crate::parser::{Parser, keyword_at, lemma_ident_at};
use crate::scan::{lemma_trivia_end, trivia_end};
use crate::syntax::{pos_at, range_at, SourcePos, Syntax, SyntaxKind};
use crate::tactics::keyword_missing;

verus! {

/// A keyword at `k` that starts a command.
pub open spec fn command_keyword_at(t: Seq<char>, k: int) -> bool {
    ||| keyword_at(t, k, "def"@)
    ||| keyword_at(t, k, "theorem"@)
    ||| keyword_at(t, k, "axiom"@)
    ||| keyword_at(t, k, "constant"@)
    ||| keyword_at(t, k, "variable"@)
    ||| keyword_at(t, k, "universe"@)
    ||| keyword_at(t, k, "import"@)
    ||| keyword_at(t, k, "open"@)
    ||| keyword_at(t, k, "namespace"@)
    ||| keyword_at(t, k, "section"@)
    ||| keyword_at(t, k, "end"@)
    ||| keyword_at(t, k, "instance"@)
    ||| keyword_at(t, k, "class"@)
    ||| keyword_at(t, k, "structure"@)
    ||| keyword_at(t, k, "inductive"@)
    ||| keyword_at(t, k, "abbrev"@)
    ||| keyword_at(t, k, "macro"@)
    ||| keyword_at(t, k, "macro_rules"@)
    ||| keyword_at(t, k, "syntax"@)
    ||| keyword_at(t, k, "notation"@)
    ||| keyword_at(t, k, "elab"@)
    ||| keyword_at(t, k, "declare_syntax_cat"@)
    ||| keyword_at(t, k, "mutual"@)
    ||| keyword_at(t, k, "deriving"@)
}

/// `s` is an atom reading `v` that spans from `b` to `e`.
pub open spec fn is_name_atom(s: Syntax, t: Seq<char>, b: int, e: int, v: Seq<char>) -> bool {
    s matches Syntax::Atom(a) && a.value@ == v && a.range == range_at(t, b as nat, e as nat)
}

/// What a declaration `kw name : type` returns from `p`, given the call of
/// the term parser: the keyword, whitespace and comments, an identifier,
/// whitespace and comments, `:`, whitespace and comments, and the type; a
/// node of `kind` spanning from the keyword to the end of the type, whose
/// children are the name and the type.
pub open spec fn typed_decl_result(
    p: Parser,
    q: Parser,
    r: ParserResult<Syntax>,
    calls: Seq<TermCall>,
    kw: Seq<char>,
    kind: SyntaxKind,
) -> bool {
    let t = p.text();
    let i = p.offset() as int;
    let j = trivia_end(t, i + kw.len());
    &&& q.text() == t
    &&& if !keyword_at(t, i, kw) {
        calls.len() == 0 && keyword_missing(p, q, r, kw)
    } else {
        match ident_lex(t, j) {
            Lex::Token(name, e) => {
                let s = trivia_end(t, e);
                if !(0 <= s < t.len() && t[s] == ':') {
                    &&& calls.len() == 0
                    &&& q.offset() == s
                    &&& r matches Err(err) && expect_error(*err, t, s, ':')
                } else {
                    &&& calls.len() == 1
                    &&& calls[0].start == trivia_end(t, s + 1)
                    &&& q.offset() == calls[0].end
                    &&& match calls[0].result {
                        Err(err) => r == Err::<Syntax, Box<ParseError>>(err),
                        Ok(ty) => r matches Ok(x) && x matches Syntax::Node(n) && {
                            &&& n.kind == kind
                            &&& n.range == range_at(t, i as nat, calls[0].end as nat)
                            &&& n.children@.len() == 2
                            &&& is_name_atom(n.children@[0], t, j, e, name)
                            &&& n.children@[1] == ty
                        },
                    }
                }
            },
            Lex::Fail(s, o) => calls.len() == 0 && q.offset() == o && (r matches Err(err) && err_is(*err, s, t, o)),
            Lex::Paren => false,
        }
    }
}

/// What `structure_field` returns from `p`, given the call of the atom
/// parser: an identifier (after whitespace and comments), whitespace and
/// comments, `:`, whitespace and comments, and the type; a `Field` node
/// spanning from the cursor to the end of the type, of the name and the
/// type.
pub open spec fn field_result(p: Parser, q: Parser, r: ParserResult<Syntax>, calls: Seq<TermCall>) -> bool {
    let t = p.text();
    let i = p.offset() as int;
    let j = trivia_end(t, i);
    &&& q.text() == t
    &&& match ident_lex(t, j) {
        Lex::Token(name, e) => {
            let s = trivia_end(t, e);
            if !(0 <= s < t.len() && t[s] == ':') {
                &&& calls.len() == 0
                &&& q.offset() == s
                &&& r matches Err(err) && expect_error(*err, t, s, ':')
            } else {
                &&& calls.len() == 1
                &&& calls[0].start == trivia_end(t, s + 1)
                &&& q.offset() == calls[0].end
                &&& match calls[0].result {
                    Err(err) => r == Err::<Syntax, Box<ParseError>>(err),
                    Ok(ty) => r matches Ok(x) && x matches Syntax::Node(n) && {
                        &&& n.kind == SyntaxKind::Field
                        &&& n.range == range_at(t, i as nat, calls[0].end as nat)
                        &&& n.children@.len() == 2
                        &&& is_name_atom(n.children@[0], t, i, e, name)
                        &&& n.children@[1] == ty
                    },
                }
            }
        },
        Lex::Fail(s, o) => calls.len() == 0 && q.offset() == o && (r matches Err(err) && err_is(*err, s, t, o)),
        Lex::Paren => false,
    }
}

/// How reading a list of names ends.
pub ghost enum NameList {
    /// With the names (where each starts and ends, and its text), the
    /// cursor at the index given.
    Done(Seq<(int, int, Seq<char>)>, int),
    /// With the error given at the index given.
    Fail(ErrSpec, int),
    /// It does not move on.
    Stuck,
}

/// Identifiers from `j`, which stands after whitespace and comments, each
/// followed by whitespace and comments, separated by `,` and whitespace
/// and comments.
pub open spec fn name_list(t: Seq<char>, j: int, acc: Seq<(int, int, Seq<char>)>) -> NameList
    decreases t.len() - j,
{
    match ident_lex(t, j) {
        Lex::Token(name, e) => {
            let s = trivia_end(t, e);
            let acc2 = acc.push((j, e, name));
            if 0 <= s < t.len() && t[s] == ',' {
                let j2 = trivia_end(t, s + 1);
                if j < j2 <= t.len() {
                    name_list(t, j2, acc2)
                } else {
                    NameList::Stuck
                }
            } else {
                NameList::Done(acc2, s)
            }
        },
        Lex::Fail(s, o) => NameList::Fail(s, o),
        Lex::Paren => NameList::Stuck,
    }
}

/// How a list of names goes on at `s`, after a name and whitespace and
/// comments: with the next name after `,`, or it ends there.
pub open spec fn name_after(t: Seq<char>, s: int, acc: Seq<(int, int, Seq<char>)>) -> NameList {
    if 0 <= s < t.len() && t[s] == ',' {
        name_list(t, trivia_end(t, s + 1), acc)
    } else {
        NameList::Done(acc, s)
    }
}

/// The atoms `v` are the names `names`.
pub open spec fn names_match(v: Seq<Syntax>, names: Seq<(int, int, Seq<char>)>, t: Seq<char>) -> bool {
    &&& v.len() == names.len()
    &&& forall|m: int| 0 <= m < names.len() ==> #[trigger] is_name_atom(v[m], t, names[m].0, names[m].1, names[m].2)
}

/// What `deriving_clause` returns from `p`: the keyword `deriving`,
/// whitespace and comments, and a list of names (see `name_list`), which
/// become the atoms of a `Deriving` node spanning from the keyword.
pub open spec fn deriving_result(p: Parser, q: Parser, r: ParserResult<Syntax>) -> bool {
    let t = p.text();
    let i = p.offset() as int;
    &&& q.text() == t
    &&& if !keyword_at(t, i, "deriving"@) {
        keyword_missing(p, q, r, "deriving"@)
    } else {
        match name_list(t, trivia_end(t, i + 8), Seq::empty()) {
            NameList::Done(names, s) => {
                &&& q.offset() == s
                &&& r matches Ok(x) && x matches Syntax::Node(n) && {
                    &&& n.kind == SyntaxKind::Deriving
                    &&& n.range == range_at(t, i as nat, s as nat)
                    &&& n.children@.len() == names.len()
                    &&& forall|m: int| 0 <= m < names.len() ==> #[trigger] is_name_atom(n.children@[m], t, names[m].0, names[m].1, names[m].2)
                }
            },
            NameList::Fail(s, o) => q.offset() == o && (r matches Err(err) && err_is(*err, s, t, o)),
            NameList::Stuck => false,
        }
    }
}


/// A binder group that was read: where it started and ended, its syntax,
/// and the calls of the term parser it made.
pub ghost struct BinderStep {
    pub start: int,
    pub end: int,
    pub result: Syntax,
    pub calls: Seq<TermCall>,
}

/// How reading binder groups ended: at the index given, where no binder
/// bracket stands; or with a binder group that failed, with where it
/// started, its calls, its error, and where the cursor was left.
pub ghost enum BinderPhase {
    Ended(int),
    Failed(int, Seq<TermCall>, Box<ParseError>, int),
}

/// A character that opens a binder group.
pub open spec fn binder_open(c: Option<char>) -> bool {
    c == Some('{') || c == Some('[') || c == Some('(')
}

/// The calls of the steps, in order.
pub open spec fn flatten(steps: Seq<BinderStep>) -> Seq<TermCall>
    decreases steps.len(),
{
    if steps.len() == 0 {
        Seq::empty()
    } else {
        flatten(steps.drop_last()) + steps.last().calls
    }
}

/// Where the binder group `m` of `steps` starts: at `k0`, or after the
/// whitespace and comments that follow the one before.
pub open spec fn step_pos(t: Seq<char>, k0: int, steps: Seq<BinderStep>, m: int) -> int {
    if m == 0 {
        k0
    } else {
        trivia_end(t, steps[m - 1].end)
    }
}

/// The step is a binder group that `binder_group` reads (see
/// `binder_result`).
pub open spec fn binder_ok(t: Seq<char>, st: BinderStep) -> bool {
    exists|b: Parser, q: Parser|
        #[trigger] binder_result(b, q, Ok::<Syntax, Box<ParseError>>(st.result), st.calls) && b.text() == t && b.offset()
            == st.start && q.offset() == st.end
}

/// Binder groups from `k0`, one after another while a binder bracket
/// stands at the cursor, each followed by whitespace and comments, ended
/// as `phase` says.
pub open spec fn binders_valid(t: Seq<char>, k0: int, steps: Seq<BinderStep>, phase: BinderPhase) -> bool {
    let kp = step_pos(t, k0, steps, steps.len() as int);
    &&& forall|m: int|
        0 <= m < steps.len() ==> {
            &&& #[trigger] steps[m].start == step_pos(t, k0, steps, m)
            &&& binder_open(char_at_spec(t, steps[m].start))
            &&& binder_ok(t, steps[m])
        }
    &&& match phase {
        BinderPhase::Ended(kb) => kb == kp && !binder_open(char_at_spec(t, kb)),
        BinderPhase::Failed(st, cs, err, at) => {
            &&& st == kp
            &&& binder_open(char_at_spec(t, st))
            &&& exists|b: Parser, q: Parser|
                #[trigger] binder_result(b, q, Err::<Syntax, Box<ParseError>>(err), cs) && b.text() == t && b.offset() == st
                    && q.offset() == at
        },
    }
}

/// The character at `k`, if any.
pub open spec fn char_at_spec(t: Seq<char>, k: int) -> Option<char> {
    if 0 <= k < t.len() {
        Some(t[k])
    } else {
        None
    }
}

/// The binder groups `steps` were read from `k0` and the cursor stands at
/// `k` after them; `v` is their syntax.
pub open spec fn binders_so_far(t: Seq<char>, k0: int, k: int, steps: Seq<BinderStep>, v: Seq<Syntax>) -> bool {
    &&& forall|m: int|
        0 <= m < steps.len() ==> {
            &&& #[trigger] steps[m].start == step_pos(t, k0, steps, m)
            &&& binder_open(char_at_spec(t, steps[m].start))
            &&& binder_ok(t, steps[m])
        }
    &&& k == step_pos(t, k0, steps, steps.len() as int)
    &&& v.len() == steps.len()
    &&& forall|m: int| 0 <= m < steps.len() ==> #[trigger] v[m] == steps[m].result
}

/// What `parse_binders` returns from `p`: the binder groups `steps`, ended
/// as `phase` says; on success their syntax, in order.
pub open spec fn binders_result(
    p: Parser,
    q: Parser,
    r: ParserResult<Vec<Syntax>>,
    calls: Seq<TermCall>,
    steps: Seq<BinderStep>,
    phase: BinderPhase,
) -> bool {
    let t = p.text();
    &&& q.text() == t
    &&& binders_valid(t, p.offset() as int, steps, phase)
    &&& match phase {
        BinderPhase::Ended(kb) => {
            &&& calls == flatten(steps)
            &&& q.offset() == kb
            &&& r matches Ok(v) && v@.len() == steps.len() && forall|m: int| 0 <= m < steps.len() ==> #[trigger] v@[m] == steps[m].result
        },
        BinderPhase::Failed(_, cs, err, at) => {
            &&& calls == flatten(steps) + cs
            &&& q.offset() == at
            &&& r == Err::<Vec<Syntax>, Box<ParseError>>(err)
        },
    }
}

/// How reading `: type := value` ends.
pub ghost enum BodyEnd {
    /// With the type and the value, the cursor at the index given.
    Done(Syntax, Syntax, int),
    /// With the error given at the index given.
    Fail(ErrSpec, int),
    /// With the error the term parser gave; the cursor where it left it.
    TermError(Box<ParseError>, int),
    /// The calls do not fit the text.
    Stuck,
}

/// `: type := value` at `kb`: `:`, whitespace and comments, the type read
/// by the first call, whitespace and comments, `:=`, whitespace and
/// comments, and the value read by the second call.
pub open spec fn body_out(t: Seq<char>, kb: int, calls: Seq<TermCall>) -> BodyEnd {
    if !(0 <= kb < t.len() && t[kb] == ':') {
        if calls.len() == 0 {
            BodyEnd::Fail(ErrSpec::Expect(':'), kb)
        } else {
            BodyEnd::Stuck
        }
    } else if calls.len() == 0 || calls[0].start != trivia_end(t, kb + 1) {
        BodyEnd::Stuck
    } else {
        match calls[0].result {
            Err(e) => if calls.len() == 1 {
                BodyEnd::TermError(e, calls[0].end)
            } else {
                BodyEnd::Stuck
            },
            Ok(ty) => {
                let n = trivia_end(t, calls[0].end);
                if !(0 <= n < t.len() && t[n] == ':') {
                    if calls.len() == 1 {
                        BodyEnd::Fail(ErrSpec::Expected(":="@), n)
                    } else {
                        BodyEnd::Stuck
                    }
                } else if !(n + 1 < t.len() && t[n + 1] == '=') {
                    if calls.len() == 1 {
                        BodyEnd::Fail(ErrSpec::Expect('='), n + 1)
                    } else {
                        BodyEnd::Stuck
                    }
                } else if calls.len() != 2 || calls[1].start != trivia_end(t, n + 2) {
                    BodyEnd::Stuck
                } else {
                    match calls[1].result {
                        Err(e) => BodyEnd::TermError(e, calls[1].end),
                        Ok(value) => BodyEnd::Done(ty, value, calls[1].end),
                    }
                }
            },
        }
    }
}

/// The children of a declaration: the name, where there is one, the
/// binder groups, then `tail`.
pub open spec fn decl_children(
    cs: Seq<Syntax>,
    t: Seq<char>,
    name: Option<(int, int, Seq<char>)>,
    steps: Seq<BinderStep>,
    tail: Seq<Syntax>,
) -> bool {
    let o = if name is Some { 1int } else { 0int };
    &&& cs.len() == o + steps.len() + tail.len()
    &&& name matches Some(nm) ==> is_name_atom(cs[0], t, nm.0, nm.1, nm.2)
    &&& forall|m: int| 0 <= m < steps.len() ==> #[trigger] cs[o + m] == steps[m].result
    &&& forall|m: int| 0 <= m < tail.len() ==> #[trigger] cs[o + steps.len() + m] == tail[m]
}

/// `q` and `r` end a declaration that started at `i`, has the name given
/// (if any), and read the binder groups `steps` from `k0` with `calls`:
/// the groups end as `phase` says; then, where `with_body`, the calls left
/// read `: type := value` (see `body_out`). The result is a node of `kind`
/// spanning from `i`, whose children are the name, the groups, and the type
/// and value.
pub open spec fn after_binders(
    t: Seq<char>,
    i: int,
    k0: int,
    name: Option<(int, int, Seq<char>)>,
    q: Parser,
    r: ParserResult<Syntax>,
    calls: Seq<TermCall>,
    steps: Seq<BinderStep>,
    phase: BinderPhase,
    with_body: bool,
    kind: SyntaxKind,
) -> bool {
    let fl = flatten(steps);
    &&& binders_valid(t, k0, steps, phase)
    &&& calls.len() >= fl.len()
    &&& calls.subrange(0, fl.len() as int) == fl
    &&& match phase {
        BinderPhase::Failed(_, cs, err, at) => calls == fl + cs && q.offset() == at && r == Err::<Syntax, Box<ParseError>>(err),
        BinderPhase::Ended(kb) => if !with_body {
            &&& calls == fl
            &&& q.offset() == kb
            &&& r matches Ok(x) && x matches Syntax::Node(n) && {
                &&& n.kind == kind
                &&& n.range == range_at(t, i as nat, kb as nat)
                &&& decl_children(n.children@, t, name, steps, Seq::empty())
            }
        } else {
            match body_out(t, kb, calls.subrange(fl.len() as int, calls.len() as int)) {
                BodyEnd::Done(ty, value, e) => {
                    &&& q.offset() == e
                    &&& r matches Ok(x) && x matches Syntax::Node(n) && {
                        &&& n.kind == kind
                        &&& n.range == range_at(t, i as nat, e as nat)
                        &&& decl_children(n.children@, t, name, steps, seq![ty, value])
                    }
                },
                BodyEnd::Fail(s, o) => q.offset() == o && (r matches Err(e) && err_is(*e, s, t, o)),
                BodyEnd::TermError(e, o) => q.offset() == o && r == Err::<Syntax, Box<ParseError>>(e),
                BodyEnd::Stuck => false,
            }
        },
    }
}

/// What a declaration `kw [name] binders [: type := value]` returns from
/// `p`, given the calls of the term parser and the binder groups read
/// (see `after_binders`): the keyword, whitespace and comments, and, where
/// `named`, an identifier and whitespace and comments.
pub open spec fn binder_decl_result(
    p: Parser,
    q: Parser,
    r: ParserResult<Syntax>,
    calls: Seq<TermCall>,
    steps: Seq<BinderStep>,
    phase: BinderPhase,
    kw: Seq<char>,
    named: bool,
    with_body: bool,
    kind: SyntaxKind,
) -> bool {
    let t = p.text();
    let i = p.offset() as int;
    let j = trivia_end(t, i + kw.len());
    &&& q.text() == t
    &&& if !keyword_at(t, i, kw) {
        calls.len() == 0 && keyword_missing(p, q, r, kw)
    } else if !named {
        after_binders(t, i, j, None, q, r, calls, steps, phase, with_body, kind)
    } else {
        match ident_lex(t, j) {
            Lex::Token(name, e) => after_binders(t, i, trivia_end(t, e), Some((j, e, name)), q, r, calls, steps, phase, with_body, kind),
            Lex::Fail(s, o) => calls.len() == 0 && q.offset() == o && (r matches Err(err) && err_is(*err, s, t, o)),
            Lex::Paren => false,
        }
    }
}

/// How reading the rest of `abbrev` ends.
pub ghost enum AbbrevEnd {
    /// With the type, if one was given, the body, and the cursor.
    Done(Option<Syntax>, Syntax, int),
    /// With the error given at the index given.
    Fail(ErrSpec, int),
    /// With the error the term parser gave; the cursor where it left it.
    TermError(Box<ParseError>, int),
    /// The calls do not fit the text.
    Stuck,
}

/// `:=` at `n`, whitespace and comments, and the body read by the call
/// `c`; `ty` is the type read before.
pub open spec fn abbrev_value(t: Seq<char>, n: int, ty: Option<Syntax>, calls: Seq<TermCall>) -> AbbrevEnd {
    if !(0 <= n && n + 1 < t.len() && t[n] == ':' && t[n + 1] == '=') {
        if calls.len() == 0 {
            AbbrevEnd::Fail(ErrSpec::Expected(":="@), n)
        } else {
            AbbrevEnd::Stuck
        }
    } else if calls.len() != 1 || calls[0].start != trivia_end(t, n + 2) {
        AbbrevEnd::Stuck
    } else {
        match calls[0].result {
            Err(e) => AbbrevEnd::TermError(e, calls[0].end),
            Ok(body) => AbbrevEnd::Done(ty, body, calls[0].end),
        }
    }
}

/// The rest of `abbrev` at `kb`, after the binder groups: an optional
/// type (`:` not followed by `=`, whitespace and comments, a term read by
/// the first call), whitespace and comments, then `:=` and the body (see
/// `abbrev_value`).
pub open spec fn abbrev_out(t: Seq<char>, kb: int, calls: Seq<TermCall>) -> AbbrevEnd {
    if 0 <= kb < t.len() && t[kb] == ':' && !(kb + 1 < t.len() && t[kb + 1] == '=') {
        if calls.len() == 0 || calls[0].start != trivia_end(t, kb + 1) {
            AbbrevEnd::Stuck
        } else {
            match calls[0].result {
                Err(e) => if calls.len() == 1 {
                    AbbrevEnd::TermError(e, calls[0].end)
                } else {
                    AbbrevEnd::Stuck
                },
                Ok(ty) => abbrev_value(t, trivia_end(t, calls[0].end), Some(ty), calls.drop_first()),
            }
        }
    } else {
        abbrev_value(t, trivia_end(t, kb), None, calls)
    }
}

/// What `abbrev_command` returns from `p`, given the calls of the term
/// parser and the binder groups read: `abbrev`, whitespace and comments,
/// an identifier, whitespace and comments, binder groups (see
/// `binders_valid`), and the rest (see `abbrev_out`); an `Abbrev` node
/// spanning from the keyword, of the name, the groups, the type (if any)
/// and the body.
pub open spec fn abbrev_result(
    p: Parser,
    q: Parser,
    r: ParserResult<Syntax>,
    calls: Seq<TermCall>,
    steps: Seq<BinderStep>,
    phase: BinderPhase,
) -> bool {
    let t = p.text();
    let i = p.offset() as int;
    let j = trivia_end(t, i + 6);
    &&& q.text() == t
    &&& if !keyword_at(t, i, "abbrev"@) {
        calls.len() == 0 && keyword_missing(p, q, r, "abbrev"@)
    } else {
        match ident_lex(t, j) {
            Lex::Token(name, e) => {
                let fl = flatten(steps);
                &&& binders_valid(t, trivia_end(t, e), steps, phase)
                &&& calls.len() >= fl.len()
                &&& calls.subrange(0, fl.len() as int) == fl
                &&& match phase {
                    BinderPhase::Failed(_, cs, err, at) => calls == fl + cs && q.offset() == at && r == Err::<Syntax, Box<ParseError>>(err),
                    BinderPhase::Ended(kb) => match abbrev_out(t, kb, calls.subrange(fl.len() as int, calls.len() as int)) {
                        AbbrevEnd::Done(ty, body, end) => {
                            &&& q.offset() == end
                            &&& r matches Ok(x) && x matches Syntax::Node(n) && {
                                &&& n.kind == SyntaxKind::Abbrev
                                &&& n.range == range_at(t, i as nat, end as nat)
                                &&& decl_children(n.children@, t, Some((j, e, name)), steps, match ty {
                                    Some(y) => seq![y, body],
                                    None => seq![body],
                                })
                            }
                        },
                        AbbrevEnd::Fail(s, o) => q.offset() == o && (r matches Err(err) && err_is(*err, s, t, o)),
                        AbbrevEnd::TermError(err, o) => q.offset() == o && r == Err::<Syntax, Box<ParseError>>(err),
                        AbbrevEnd::Stuck => false,
                    },
                }
            },
            Lex::Fail(s, o) => calls.len() == 0 && q.offset() == o && (r matches Err(err) && err_is(*err, s, t, o)),
            Lex::Paren => false,
        }
    }
}

/// What `inductive_constructor` returns from `p`, given the call of the
/// term parser: an identifier (after whitespace and comments), whitespace
/// and comments, and, if `:` follows, whitespace and comments and a type;
/// a `Constructor` node spanning from the cursor, of the name and the
/// type (if any).
pub open spec fn constructor_result(p: Parser, q: Parser, r: ParserResult<Syntax>, calls: Seq<TermCall>) -> bool {
    let t = p.text();
    let i = p.offset() as int;
    let j = trivia_end(t, i);
    &&& q.text() == t
    &&& match ident_lex(t, j) {
        Lex::Token(name, e) => {
            let s = trivia_end(t, e);
            if !(0 <= s < t.len() && t[s] == ':') {
                &&& calls.len() == 0
                &&& q.offset() == s
                &&& r matches Ok(x) && x matches Syntax::Node(n) && {
                    &&& n.kind == SyntaxKind::Constructor
                    &&& n.range == range_at(t, i as nat, s as nat)
                    &&& n.children@.len() == 1
                    &&& is_name_atom(n.children@[0], t, i, e, name)
                }
            } else {
                &&& calls.len() == 1
                &&& calls[0].start == trivia_end(t, s + 1)
                &&& q.offset() == calls[0].end
                &&& match calls[0].result {
                    Err(err) => r == Err::<Syntax, Box<ParseError>>(err),
                    Ok(ty) => r matches Ok(x) && x matches Syntax::Node(n) && {
                        &&& n.kind == SyntaxKind::Constructor
                        &&& n.range == range_at(t, i as nat, calls[0].end as nat)
                        &&& n.children@.len() == 2
                        &&& is_name_atom(n.children@[0], t, i, e, name)
                        &&& n.children@[1] == ty
                    },
                }
            }
        },
        Lex::Fail(s, o) => calls.len() == 0 && q.offset() == o && (r matches Err(err) && err_is(*err, s, t, o)),
        Lex::Paren => false,
    }
}

/// What `instance_command` returns from `p`, given the call of the term
/// parser (the type) and of the atom parser (the value): `instance`,
/// whitespace and comments, a name where an identifier (not `:`) starts,
/// whitespace and comments, `:`, whitespace and comments, the type,
/// whitespace and comments; then, at `where`, the value right there, or
/// else `:=`, whitespace and comments and the value. The result is an
/// `Instance` node spanning from the keyword, of the name (if any), the
/// type and the value.
pub open spec fn instance_result(
    p: Parser,
    q: Parser,
    r: ParserResult<Syntax>,
    tcalls: Seq<TermCall>,
    acalls: Seq<TermCall>,
) -> bool {
    let t = p.text();
    let i = p.offset() as int;
    let j = trivia_end(t, i + 8);
    let named = 0 <= j < t.len() && t[j] != ':' && crate::lexical::spec_is_id_start(t[j]);
    let name = if named { ident_lex(t, j) } else { Lex::Paren };
    let s = match name {
        Lex::Token(_, e) => trivia_end(t, e),
        _ => trivia_end(t, j),
    };
    &&& q.text() == t
    &&& if !keyword_at(t, i, "instance"@) {
        tcalls.len() == 0 && acalls.len() == 0 && keyword_missing(p, q, r, "instance"@)
    } else if name is Fail {
        &&& tcalls.len() == 0
        &&& acalls.len() == 0
        &&& match name {
            Lex::Fail(es, o) => q.offset() == o && (r matches Err(err) && err_is(*err, es, t, o)),
            _ => false,
        }
    } else if !(0 <= s < t.len() && t[s] == ':') {
        &&& tcalls.len() == 0
        &&& acalls.len() == 0
        &&& q.offset() == s
        &&& r matches Err(err) && expect_error(*err, t, s, ':')
    } else {
        &&& tcalls.len() == 1
        &&& tcalls[0].start == trivia_end(t, s + 1)
        &&& match tcalls[0].result {
            Err(err) => acalls.len() == 0 && q.offset() == tcalls[0].end && r == Err::<Syntax, Box<ParseError>>(err),
            Ok(ty) => {
                let n = trivia_end(t, tcalls[0].end);
                let at_where = keyword_at(t, n, "where"@);
                if !at_where && !(0 <= n < t.len() && t[n] == ':') {
                    &&& acalls.len() == 0
                    &&& q.offset() == n
                    &&& r matches Err(err) && is_expected(*err, ":="@, pos_at(t, n as nat))
                } else if !at_where && !(n + 1 < t.len() && t[n + 1] == '=') {
                    &&& acalls.len() == 0
                    &&& q.offset() == n + 1
                    &&& r matches Err(err) && expect_error(*err, t, n + 1, '=')
                } else {
                    &&& acalls.len() == 1
                    &&& acalls[0].start == if at_where { n } else { trivia_end(t, n + 2) }
                    &&& q.offset() == acalls[0].end
                    &&& match acalls[0].result {
                        Err(err) => r == Err::<Syntax, Box<ParseError>>(err),
                        Ok(value) => r matches Ok(x) && x matches Syntax::Node(nd) && {
                            &&& nd.kind == SyntaxKind::Instance
                            &&& nd.range == range_at(t, i as nat, acalls[0].end as nat)
                            &&& nd.children@ == match name {
                                Lex::Token(_, _) => seq![nd.children@[0], ty, value],
                                _ => seq![ty, value],
                            }
                            &&& name matches Lex::Token(v, e) ==> is_name_atom(nd.children@[0], t, j, e, v)
                        },
                    }
                }
            },
        }
    }
}

/// The items of a body: structure or class fields, or constructors of an
/// inductive type.
#[derive(Clone, Copy, PartialEq, Eq, Structural)]
pub enum ItemKind {
    Field,
    Constructor,
}

/// Another item of `kind` follows at `pos`, after `m` of them: a field
/// starts with an identifier, a constructor with `|` or, for the first,
/// an identifier; a keyword that starts a command is no item.
pub open spec fn item_cont(t: Seq<char>, kind: ItemKind, pos: int, m: int) -> bool {
    &&& 0 <= pos < t.len()
    &&& !(crate::lexical::spec_is_id_start(t[pos]) && command_keyword_at(t, pos))
    &&& match kind {
        ItemKind::Field => crate::lexical::spec_is_id_start(t[pos]),
        ItemKind::Constructor => t[pos] == '|' || (m == 0 && crate::lexical::spec_is_id_start(t[pos])),
    }
}

/// Where the item at `pos` starts: after `|`, and whitespace and comments,
/// for a constructor so introduced.
pub open spec fn item_start(t: Seq<char>, kind: ItemKind, pos: int) -> int {
    if kind == ItemKind::Constructor && 0 <= pos < t.len() && t[pos] == '|' {
        trivia_end(t, pos + 1)
    } else {
        pos
    }
}

/// `q` and `r` are what reading an item of `kind` from `b` gives.
pub open spec fn item_rel(kind: ItemKind, b: Parser, q: Parser, r: ParserResult<Syntax>, calls: Seq<TermCall>) -> bool {
    match kind {
        ItemKind::Field => field_result(b, q, r, calls),
        ItemKind::Constructor => constructor_result(b, q, r, calls),
    }
}

/// The step is an item of `kind` (see `field_result` and
/// `constructor_result`).
pub open spec fn item_ok(t: Seq<char>, kind: ItemKind, st: BinderStep) -> bool {
    exists|b: Parser, q: Parser|
        #[trigger] item_rel(kind, b, q, Ok::<Syntax, Box<ParseError>>(st.result), st.calls) && b.text() == t
            && b.offset() == st.start && q.offset() == st.end
}

/// Items of `kind` from `k0`, one after another while one follows (see
/// `item_cont`), each followed by whitespace and comments, ended as `phase`
/// says.
pub open spec fn items_valid(t: Seq<char>, k0: int, kind: ItemKind, steps: Seq<BinderStep>, phase: BinderPhase) -> bool {
    let kp = step_pos(t, k0, steps, steps.len() as int);
    &&& forall|m: int|
        0 <= m < steps.len() ==> {
            &&& #[trigger] steps[m].start == item_start(t, kind, step_pos(t, k0, steps, m))
            &&& item_cont(t, kind, step_pos(t, k0, steps, m), m)
            &&& item_ok(t, kind, steps[m])
        }
    &&& match phase {
        BinderPhase::Ended(kb) => kb == kp && !item_cont(t, kind, kb, steps.len() as int),
        BinderPhase::Failed(st, cs, err, at) => {
            &&& item_cont(t, kind, kp, steps.len() as int)
            &&& st == item_start(t, kind, kp)
            &&& exists|b: Parser, q: Parser|
                #[trigger] item_rel(kind, b, q, Err::<Syntax, Box<ParseError>>(err), cs) && b.text() == t && b.offset() == st
                    && q.offset() == at
        },
    }
}

/// What `parse_items` returns from `p`: the items `steps`, ended as
/// `phase` says; on success their syntax, in order.
pub open spec fn items_result(
    p: Parser,
    q: Parser,
    r: ParserResult<Vec<Syntax>>,
    kind: ItemKind,
    calls: Seq<TermCall>,
    steps: Seq<BinderStep>,
    phase: BinderPhase,
) -> bool {
    let t = p.text();
    &&& q.text() == t
    &&& items_valid(t, p.offset() as int, kind, steps, phase)
    &&& match phase {
        BinderPhase::Ended(kb) => {
            &&& calls == flatten(steps)
            &&& q.offset() == kb
            &&& r matches Ok(v) && v@.len() == steps.len() && forall|m: int| 0 <= m < steps.len() ==> #[trigger] v@[m] == steps[m].result
        },
        BinderPhase::Failed(_, cs, err, at) => {
            &&& calls == flatten(steps) + cs
            &&& q.offset() == at
            &&& r == Err::<Vec<Syntax>, Box<ParseError>>(err)
        },
    }
}

/// The items `steps` of `kind` were read from `k0` and the cursor stands
/// at `k` after them; `v` is their syntax.
pub open spec fn items_so_far(t: Seq<char>, k0: int, k: int, kind: ItemKind, steps: Seq<BinderStep>, v: Seq<Syntax>) -> bool {
    &&& forall|m: int|
        0 <= m < steps.len() ==> {
            &&& #[trigger] steps[m].start == item_start(t, kind, step_pos(t, k0, steps, m))
            &&& item_cont(t, kind, step_pos(t, k0, steps, m), m)
            &&& item_ok(t, kind, steps[m])
        }
    &&& k == step_pos(t, k0, steps, steps.len() as int)
    &&& v.len() == steps.len()
    &&& forall|m: int| 0 <= m < steps.len() ==> #[trigger] v[m] == steps[m].result
}

/// The optional part after the binder groups: `extends` and an atom (in a
/// structure), `extends` and a term (in a class), or `:` and a type (in an
/// inductive type).
#[derive(Clone, Copy, PartialEq, Eq, Structural)]
pub enum OptKind {
    ExtendsAtom,
    ExtendsTerm,
    Colon,
}

/// The optional part of `ok` stands at `kb`.
pub open spec fn opt_present(t: Seq<char>, kb: int, ok: OptKind) -> bool {
    match ok {
        OptKind::Colon => 0 <= kb < t.len() && t[kb] == ':',
        _ => keyword_at(t, kb, "extends"@),
    }
}

/// Where the term of the optional part at `kb` starts.
pub open spec fn opt_start(t: Seq<char>, kb: int, ok: OptKind) -> int {
    match ok {
        OptKind::Colon => trivia_end(t, kb + 1),
        _ => trivia_end(t, kb + 7),
    }
}

/// The syntax of each step, in order.
pub open spec fn step_results(steps: Seq<BinderStep>) -> Seq<Syntax> {
    steps.map_values(|st: BinderStep| st.result)
}

/// `cs` are the children of a declaration: the name, the binder groups
/// `bres`, `mid`, the items `ires`, then `tail`.
pub open spec fn body_children(
    cs: Seq<Syntax>,
    t: Seq<char>,
    nm: (int, int, Seq<char>),
    bres: Seq<Syntax>,
    mid: Seq<Syntax>,
    ires: Seq<Syntax>,
    tail: Seq<Syntax>,
) -> bool {
    &&& cs.len() >= 1
    &&& is_name_atom(cs[0], t, nm.0, nm.1, nm.2)
    &&& cs.drop_first() == bres + mid + ires + tail
}

/// `r` is a node of `kind` spanning from `i` to `end` with these
/// children (see `body_children`).
pub open spec fn body_node(
    r: ParserResult<Syntax>,
    t: Seq<char>,
    i: int,
    end: int,
    kind: SyntaxKind,
    nm: (int, int, Seq<char>),
    bres: Seq<Syntax>,
    mid: Seq<Syntax>,
    ires: Seq<Syntax>,
    tail: Seq<Syntax>,
) -> bool {
    r matches Ok(x) && x matches Syntax::Node(n) && {
        &&& n.kind == kind
        &&& n.range == range_at(t, i as nat, end as nat)
        &&& body_children(n.children@, t, nm, bres, mid, ires, tail)
    }
}

/// The end of a declaration at `kf`: a `deriving` clause where one is
/// allowed and stands there (see `deriving_result`), else nothing.
pub open spec fn deriving_tail(
    t: Seq<char>,
    i: int,
    kf: int,
    q: Parser,
    r: ParserResult<Syntax>,
    kind: SyntaxKind,
    nm: (int, int, Seq<char>),
    bres: Seq<Syntax>,
    mid: Seq<Syntax>,
    ires: Seq<Syntax>,
    der: bool,
) -> bool {
    if der && keyword_at(t, kf, "deriving"@) {
        exists|b: Parser, rd: ParserResult<Syntax>|
            #[trigger] deriving_result(b, q, rd) && b.text() == t && b.offset() == kf && match rd {
                Err(e) => r == Err::<Syntax, Box<ParseError>>(e),
                Ok(d) => body_node(r, t, i, q.offset() as int, kind, nm, bres, mid, ires, seq![d]),
            }
    } else {
        q.offset() == kf && body_node(r, t, i, kf, kind, nm, bres, mid, ires, Seq::empty())
    }
}

/// A node of `kind` spanning from `i` to `end` with the children `cs`.
pub open spec fn node_of(r: ParserResult<Syntax>, t: Seq<char>, i: int, end: int, kind: SyntaxKind, cs: Seq<Syntax>) -> bool {
    r matches Ok(x) && x matches Syntax::Node(n) && {
        &&& n.kind == kind
        &&& n.range == range_at(t, i as nat, end as nat)
        &&& n.children@ == cs
    }
}

/// What the end of a declaration gives from `p`: a deriving clause where
/// `der` allows one and it stands there (see `deriving_result`), then a
/// node of `kind` spanning from `i` with the children `cs` and the
/// deriving clause.
pub open spec fn finish_result(p: Parser, q: Parser, r: ParserResult<Syntax>, i: int, kind: SyntaxKind, cs: Seq<Syntax>, der: bool) -> bool {
    let t = p.text();
    let kf = p.offset() as int;
    &&& q.text() == t
    &&& if der && keyword_at(t, kf, "deriving"@) {
        exists|b: Parser, rd: ParserResult<Syntax>|
            #[trigger] deriving_result(b, q, rd) && b.text() == t && b.offset() == kf && match rd {
                Err(e) => r == Err::<Syntax, Box<ParseError>>(e),
                Ok(d) => node_of(r, t, i, q.offset() as int, kind, cs.push(d)),
            }
    } else {
        q.offset() == kf && node_of(r, t, i, kf, kind, cs)
    }
}

/// The end of a declaration, read as `finish_result` says, is the end that
/// `deriving_tail` describes, where `cs` holds the name, binder groups,
/// optional part and items.
pub proof fn lemma_finish_tail(
    p: Parser,
    q: Parser,
    r: ParserResult<Syntax>,
    i: int,
    kind: SyntaxKind,
    cs: Seq<Syntax>,
    der: bool,
    nm: (int, int, Seq<char>),
    bres: Seq<Syntax>,
    mid: Seq<Syntax>,
    ires: Seq<Syntax>,
)
    requires
        finish_result(p, q, r, i, kind, cs, der),
        body_children(cs, p.text(), nm, bres, mid, ires, Seq::empty()),
    ensures
        deriving_tail(p.text(), i, p.offset() as int, q, r, kind, nm, bres, mid, ires, der),
{
    let t = p.text();
    let kf = p.offset() as int;
    if der && keyword_at(t, kf, "deriving"@) {
        let (bp, rd) = choose|bp: Parser, rd: ParserResult<Syntax>|
            #[trigger] deriving_result(bp, q, rd) && bp.text() == t && bp.offset() == kf && match rd {
                Err(e) => r == Err::<Syntax, Box<ParseError>>(e),
                Ok(d) => node_of(r, t, i, q.offset() as int, kind, cs.push(d)),
            };
        if let Ok(d) = rd {
            let c1 = cs.push(d);
            assert(c1.drop_first() =~= cs.drop_first().push(d));
            assert(bres + mid + ires + seq![d] =~= (bres + mid + ires + Seq::empty()).push(d));
            assert(body_children(c1, t, nm, bres, mid, ires, seq![d]));
        }
    }
}

/// The rest of a declaration after its binder groups, at `kb`: the
/// optional part (see `opt_present`), whose term is read by the first of
/// `tc` (or of `ac`, for `extends` in a structure), whitespace and
/// comments, `where` (where `where_required`; else optional), whitespace
/// and comments, the items of `ik` (fields read with `ac`, constructors
/// with `tc`), and the deriving clause where `der` (see `deriving_tail`).
#[verifier::opaque]
pub open spec fn body_rest(
    t: Seq<char>,
    i: int,
    nm: (int, int, Seq<char>),
    bres: Seq<Syntax>,
    kb: int,
    tc: Seq<TermCall>,
    ac: Seq<TermCall>,
    q: Parser,
    r: ParserResult<Syntax>,
    isteps: Seq<BinderStep>,
    iphase: BinderPhase,
    kind: SyntaxKind,
    ok: OptKind,
    where_required: bool,
    ik: ItemKind,
    der: bool,
) -> bool {
    let present = opt_present(t, kb, ok);
    let uses_atom = ok == OptKind::ExtendsAtom;
    let oc = if uses_atom { ac } else { tc };
    let rest_other = if uses_atom { tc } else { ac };
    if present && (oc.len() == 0 || oc[0].start != opt_start(t, kb, ok)) {
        false
    } else if present && oc[0].result is Err {
        &&& oc.len() == 1
        &&& rest_other.len() == 0
        &&& q.offset() == oc[0].end
        &&& r == Err::<Syntax, Box<ParseError>>(oc[0].result->Err_0)
    } else {
        let after = if present { oc[0].end } else { kb };
        let mid: Seq<Syntax> = if present { seq![oc[0].result->Ok_0] } else { Seq::empty() };
        let tc2 = if present && !uses_atom { tc.drop_first() } else { tc };
        let ac2 = if present && uses_atom { ac.drop_first() } else { ac };
        body_after(t, i, nm, bres, mid, trivia_end(t, after), tc2, ac2, q, r, isteps, iphase, kind, where_required, ik, der)
    }
}

/// The end of a declaration at `w`, after its optional part: `where`
/// (where `where_required`; else optional), whitespace and comments, the
/// items of `ik` (fields read with the calls `ac`, constructors with `tc`),
/// and the deriving clause where `der` (see `deriving_tail`); `mid` is the
/// syntax of the optional part.
#[verifier::opaque]
pub open spec fn body_after(
    t: Seq<char>,
    i: int,
    nm: (int, int, Seq<char>),
    bres: Seq<Syntax>,
    mid: Seq<Syntax>,
    w: int,
    tc: Seq<TermCall>,
    ac: Seq<TermCall>,
    q: Parser,
    r: ParserResult<Syntax>,
    isteps: Seq<BinderStep>,
    iphase: BinderPhase,
    kind: SyntaxKind,
    where_required: bool,
    ik: ItemKind,
    der: bool,
) -> bool {
    let has_where = keyword_at(t, w, "where"@);
    let ic = if ik == ItemKind::Field { ac } else { tc };
    let other = if ik == ItemKind::Field { tc } else { ac };
    if !has_where && where_required {
        &&& tc.len() == 0
        &&& ac.len() == 0
        &&& q.offset() == w
        &&& r matches Err(e) && is_expected(*e, "keyword 'where'"@, pos_at(t, w as nat))
    } else if !has_where {
        &&& tc.len() == 0
        &&& ac.len() == 0
        &&& isteps.len() == 0
        &&& deriving_tail(t, i, w, q, r, kind, nm, bres, mid, step_results(isteps), der)
    } else {
        &&& other.len() == 0
        &&& items_valid(t, trivia_end(t, w + 5), ik, isteps, iphase)
        &&& match iphase {
            BinderPhase::Failed(_, cs, err, at) => ic == flatten(isteps) + cs && q.offset() == at && r == Err::<
                Syntax,
                Box<ParseError>,
            >(err),
            BinderPhase::Ended(kf) => ic == flatten(isteps) && deriving_tail(t, i, kf, q, r, kind, nm, bres, mid, step_results(isteps), der),
        }
    }
}

/// Without the optional part at `kb`, the rest of a declaration is its
/// end after whitespace and comments (see `body_after`).
pub proof fn lemma_rest_absent(
    t: Seq<char>,
    i: int,
    nm: (int, int, Seq<char>),
    bres: Seq<Syntax>,
    kb: int,
    tc: Seq<TermCall>,
    ac: Seq<TermCall>,
    q: Parser,
    r: ParserResult<Syntax>,
    isteps: Seq<BinderStep>,
    iphase: BinderPhase,
    kind: SyntaxKind,
    ok: OptKind,
    where_required: bool,
    ik: ItemKind,
    der: bool,
)
    requires
        !opt_present(t, kb, ok),
        body_after(t, i, nm, bres, Seq::empty(), trivia_end(t, kb), tc, ac, q, r, isteps, iphase, kind, where_required, ik, der),
    ensures
        body_rest(t, i, nm, bres, kb, tc, ac, q, r, isteps, iphase, kind, ok, where_required, ik, der),
{
    reveal(body_rest);
}

/// With the optional part at `kb` whose term failed (`call`), the
/// declaration fails with its error.
pub proof fn lemma_rest_failed(
    t: Seq<char>,
    i: int,
    nm: (int, int, Seq<char>),
    bres: Seq<Syntax>,
    kb: int,
    call: TermCall,
    q: Parser,
    e: Box<ParseError>,
    isteps: Seq<BinderStep>,
    iphase: BinderPhase,
    kind: SyntaxKind,
    ok: OptKind,
    where_required: bool,
    ik: ItemKind,
    der: bool,
)
    requires
        opt_present(t, kb, ok),
        call.start == opt_start(t, kb, ok),
        call.result == Err::<Syntax, Box<ParseError>>(e),
        q.offset() == call.end,
    ensures
        ok == OptKind::ExtendsAtom ==> body_rest(t, i, nm, bres, kb, Seq::empty(), seq![call], q, Err::<Syntax, Box<ParseError>>(e), isteps, iphase, kind, ok, where_required, ik, der),
        ok != OptKind::ExtendsAtom ==> body_rest(t, i, nm, bres, kb, seq![call], Seq::empty(), q, Err::<Syntax, Box<ParseError>>(e), isteps, iphase, kind, ok, where_required, ik, der),
{
    reveal(body_rest);
}

/// With the optional part at `kb` read by `call`, the rest of a
/// declaration is its end after it (see `body_after`); `call` comes first
/// among the calls of the atom parser (for `extends` in a structure) or of
/// the term parser.
pub proof fn lemma_rest_present(
    t: Seq<char>,
    i: int,
    nm: (int, int, Seq<char>),
    bres: Seq<Syntax>,
    kb: int,
    call: TermCall,
    x: Syntax,
    tc: Seq<TermCall>,
    ac: Seq<TermCall>,
    q: Parser,
    r: ParserResult<Syntax>,
    isteps: Seq<BinderStep>,
    iphase: BinderPhase,
    kind: SyntaxKind,
    ok: OptKind,
    where_required: bool,
    ik: ItemKind,
    der: bool,
)
    requires
        opt_present(t, kb, ok),
        call.start == opt_start(t, kb, ok),
        call.result == Ok::<Syntax, Box<ParseError>>(x),
        body_after(t, i, nm, bres, seq![x], trivia_end(t, call.end), tc, ac, q, r, isteps, iphase, kind, where_required, ik, der),
    ensures
        ok == OptKind::ExtendsAtom ==> body_rest(t, i, nm, bres, kb, tc, seq![call] + ac, q, r, isteps, iphase, kind, ok, where_required, ik, der),
        ok != OptKind::ExtendsAtom ==> body_rest(t, i, nm, bres, kb, seq![call] + tc, ac, q, r, isteps, iphase, kind, ok, where_required, ik, der),
{
    reveal(body_rest);
    assert((seq![call] + ac).drop_first() =~= ac);
    assert((seq![call] + tc).drop_first() =~= tc);
    assert((seq![call] + ac)[0] == call);
    assert((seq![call] + tc)[0] == call);
}

/// What a declaration `kw name binders [opt] [where items] [deriving]`
/// returns from `p`, given the calls of the term parser (`tcalls`) and of
/// the atom parser (`acalls`), the binder groups and the items read:
/// `kw`, whitespace and comments, an identifier, whitespace and comments,
/// the binder groups (see `binders_valid`) and the rest (see
/// `body_rest`).
pub open spec fn body_decl_result(
    p: Parser,
    q: Parser,
    r: ParserResult<Syntax>,
    tcalls: Seq<TermCall>,
    acalls: Seq<TermCall>,
    bsteps: Seq<BinderStep>,
    bphase: BinderPhase,
    isteps: Seq<BinderStep>,
    iphase: BinderPhase,
    kw: Seq<char>,
    kind: SyntaxKind,
    ok: OptKind,
    where_required: bool,
    ik: ItemKind,
    der: bool,
) -> bool {
    let t = p.text();
    let i = p.offset() as int;
    let j = trivia_end(t, i + kw.len());
    &&& q.text() == t
    &&& if !keyword_at(t, i, kw) {
        tcalls.len() == 0 && acalls.len() == 0 && keyword_missing(p, q, r, kw)
    } else {
        match ident_lex(t, j) {
            Lex::Token(name, e) => {
                let bfl = flatten(bsteps);
                &&& binders_valid(t, trivia_end(t, e), bsteps, bphase)
                &&& tcalls.len() >= bfl.len()
                &&& tcalls.subrange(0, bfl.len() as int) == bfl
                &&& match bphase {
                    BinderPhase::Failed(_, cs, err, at) => {
                        &&& tcalls == bfl + cs
                        &&& acalls.len() == 0
                        &&& q.offset() == at
                        &&& r == Err::<Syntax, Box<ParseError>>(err)
                    },
                    BinderPhase::Ended(kb) => body_rest(
                        t,
                        i,
                        (j, e, name),
                        step_results(bsteps),
                        kb,
                        tcalls.subrange(bfl.len() as int, tcalls.len() as int),
                        acalls,
                        q,
                        r,
                        isteps,
                        iphase,
                        kind,
                        ok,
                        where_required,
                        ik,
                        der,
                    ),
                }
            },
            Lex::Fail(s, o) => tcalls.len() == 0 && acalls.len() == 0 && q.offset() == o && (r matches Err(err) && err_is(*err, s, t, o)),
            Lex::Paren => false,
        }
    }
}

impl Parser {
    /// Does a keyword that starts a command stand at the cursor (see
    /// `command_keyword_at`)?
    pub fn is_at_command_keyword(&self) -> (b: bool)
        requires
            self.wf(),
        ensures
            b == command_keyword_at(self.text(), self.offset() as int),
    {
        proof {
            reveal_strlit("def");
            reveal_strlit("theorem");
            reveal_strlit("axiom");
            reveal_strlit("constant");
            reveal_strlit("variable");
            reveal_strlit("universe");
            reveal_strlit("import");
            reveal_strlit("open");
            reveal_strlit("namespace");
            reveal_strlit("section");
            reveal_strlit("end");
            reveal_strlit("instance");
            reveal_strlit("class");
            reveal_strlit("structure");
            reveal_strlit("inductive");
            reveal_strlit("abbrev");
            reveal_strlit("macro");
            reveal_strlit("macro_rules");
            reveal_strlit("syntax");
            reveal_strlit("notation");
            reveal_strlit("elab");
            reveal_strlit("declare_syntax_cat");
            reveal_strlit("mutual");
            reveal_strlit("deriving");
        }
        self.peek_keyword("def") || self.peek_keyword("theorem") || self.peek_keyword("axiom") || self.peek_keyword("constant") || self.peek_keyword("variable") || self.peek_keyword("universe") || self.peek_keyword("import") || self.peek_keyword("open") || self.peek_keyword("namespace") || self.peek_keyword("section") || self.peek_keyword("end") || self.peek_keyword("instance") || self.peek_keyword("class") || self.peek_keyword("structure") || self.peek_keyword("inductive") || self.peek_keyword("abbrev") || self.peek_keyword("macro") || self.peek_keyword("macro_rules") || self.peek_keyword("syntax") || self.peek_keyword("notation") || self.peek_keyword("elab") || self.peek_keyword("declare_syntax_cat") || self.peek_keyword("mutual") || self.peek_keyword("deriving")
    }

    /// A declaration `kw name : type` (see `typed_decl_result`).
    fn typed_decl<F>(&mut self, kw: &str, kind: SyntaxKind, term: F) -> (r: ParserResult<Syntax>) where
        F: Fn(&mut Parser) -> ParserResult<Syntax>,
        requires
            old(self).wf(),
            forall|q: &mut Parser| q.wf() ==> term.requires((q,)),
            forall|q: &mut Parser, x: ParserResult<Syntax>|
                term.ensures((q,), x) ==> {
                    &&& final(q).wf()
                    &&& final(q).text() == q.text()
                    &&& final(q).offset() >= q.offset()
                },
        ensures
            final(self).wf(),
            exists|calls: Seq<TermCall>|
                #![trigger typed_decl_result(*old(self), *final(self), r, calls, kw@, kind)]
                {
                    &&& typed_decl_result(*old(self), *final(self), r, calls, kw@, kind)
                    &&& forall|j: int|
                        #![trigger calls[j]]
                        0 <= j < calls.len() ==> exists|q: &mut Parser|
                            #![trigger term.ensures((q,), calls[j].result)]
                            {
                                &&& q.text() == old(self).text()
                                &&& q.offset() == calls[j].start
                                &&& final(q).offset() == calls[j].end
                                &&& term.ensures((q,), calls[j].result)
                            }
                },
    {
        proof { self.lemma_wf(); }
        let ghost t = self.text();
        let ghost i = self.offset() as int;
        let ghost none: Seq<TermCall> = Seq::empty();
        let start = self.position();
        match self.keyword(kw) {
            Ok(()) => {},
            Err(e) => {
                proof { assert(typed_decl_result(*old(self), *self, Err::<Syntax, Box<ParseError>>(e), none, kw@, kind)); }
                return Err(e);
            },
        }
        self.skip_whitespace();
        proof {
            lemma_trivia_end(t, i + kw@.len());
            self.lemma_wf();
        }
        let ghost j = self.offset() as int;
        let name = match self.identifier() {
            Ok(n) => n,
            Err(e) => {
                proof { assert(typed_decl_result(*old(self), *self, Err::<Syntax, Box<ParseError>>(e), none, kw@, kind)); }
                return Err(e);
            },
        };
        proof {
            lemma_ident_at(t, j);
            self.lemma_wf();
        }
        let ghost e = self.offset() as int;
        self.skip_whitespace();
        proof {
            lemma_trivia_end(t, e);
            self.lemma_wf();
        }
        match self.expect_char(':') {
            Ok(()) => {},
            Err(err) => {
                proof { assert(typed_decl_result(*old(self), *self, Err::<Syntax, Box<ParseError>>(err), none, kw@, kind)); }
                return Err(err);
            },
        }
        let ghost s1 = self.offset() as int;
        self.skip_whitespace();
        proof {
            lemma_trivia_end(t, s1);
            self.lemma_wf();
        }
        let ghost c = self.offset() as int;
        let res = term(self);
        proof { self.lemma_wf(); }
        let ghost calls = seq![TermCall { start: c, end: self.offset() as int, result: res }];
        let ty = match res {
            Ok(ty) => ty,
            Err(err) => {
                proof { assert(typed_decl_result(*old(self), *self, Err::<Syntax, Box<ParseError>>(err), calls, kw@, kind)); }
                return Err(err);
            },
        };
        let range = self.input().range_from(start);
        let mut children: Vec<Syntax> = Vec::new();
        children.push(name);
        children.push(ty);
        let node = self.create_node(kind, range, children);
        proof { assert(typed_decl_result(*old(self), *self, Ok::<Syntax, Box<ParseError>>(node), calls, kw@, kind)); }
        Ok(node)
    }

    /// `constant c : T` (see `typed_decl_result`; the call is one that
    /// `term` can make).
    pub fn constant_command<F>(&mut self, term: F) -> (r: ParserResult<Syntax>) where
        F: Fn(&mut Parser) -> ParserResult<Syntax>,
        requires
            old(self).wf(),
            forall|q: &mut Parser| q.wf() ==> term.requires((q,)),
            forall|q: &mut Parser, x: ParserResult<Syntax>|
                term.ensures((q,), x) ==> {
                    &&& final(q).wf()
                    &&& final(q).text() == q.text()
                    &&& final(q).offset() >= q.offset()
                },
        ensures
            final(self).wf(),
            exists|calls: Seq<TermCall>|
                #![trigger typed_decl_result(*old(self), *final(self), r, calls, "constant"@, SyntaxKind::Constant)]
                {
                    &&& typed_decl_result(*old(self), *final(self), r, calls, "constant"@, SyntaxKind::Constant)
                    &&& forall|j: int|
                        #![trigger calls[j]]
                        0 <= j < calls.len() ==> exists|q: &mut Parser|
                            #![trigger term.ensures((q,), calls[j].result)]
                            {
                                &&& q.text() == old(self).text()
                                &&& q.offset() == calls[j].start
                                &&& final(q).offset() == calls[j].end
                                &&& term.ensures((q,), calls[j].result)
                            }
                },
    {
        self.typed_decl("constant", SyntaxKind::Constant, term)
    }

    /// `axiom ax : P` (see `typed_decl_result`; the call is one that
    /// `term` can make).
    pub fn axiom_command<F>(&mut self, term: F) -> (r: ParserResult<Syntax>) where
        F: Fn(&mut Parser) -> ParserResult<Syntax>,
        requires
            old(self).wf(),
            forall|q: &mut Parser| q.wf() ==> term.requires((q,)),
            forall|q: &mut Parser, x: ParserResult<Syntax>|
                term.ensures((q,), x) ==> {
                    &&& final(q).wf()
                    &&& final(q).text() == q.text()
                    &&& final(q).offset() >= q.offset()
                },
        ensures
            final(self).wf(),
            exists|calls: Seq<TermCall>|
                #![trigger typed_decl_result(*old(self), *final(self), r, calls, "axiom"@, SyntaxKind::Axiom)]
                {
                    &&& typed_decl_result(*old(self), *final(self), r, calls, "axiom"@, SyntaxKind::Axiom)
                    &&& forall|j: int|
                        #![trigger calls[j]]
                        0 <= j < calls.len() ==> exists|q: &mut Parser|
                            #![trigger term.ensures((q,), calls[j].result)]
                            {
                                &&& q.text() == old(self).text()
                                &&& q.offset() == calls[j].start
                                &&& final(q).offset() == calls[j].end
                                &&& term.ensures((q,), calls[j].result)
                            }
                },
    {
        self.typed_decl("axiom", SyntaxKind::Axiom, term)
    }

    /// A structure field `name : T` (see `field_result`; the call is one
    /// that `atom` can make).
    pub fn structure_field<F>(&mut self, atom: F) -> (r: ParserResult<Syntax>) where
        F: Fn(&mut Parser) -> ParserResult<Syntax>,
        requires
            old(self).wf(),
            forall|q: &mut Parser| q.wf() ==> atom.requires((q,)),
            forall|q: &mut Parser, x: ParserResult<Syntax>|
                atom.ensures((q,), x) ==> {
                    &&& final(q).wf()
                    &&& final(q).text() == q.text()
                    &&& final(q).offset() >= q.offset()
                },
        ensures
            final(self).wf(),
            r is Ok ==> final(self).offset() > old(self).offset(),
            exists|calls: Seq<TermCall>|
                #![trigger field_result(*old(self), *final(self), r, calls)]
                {
                    &&& field_result(*old(self), *final(self), r, calls)
                    &&& forall|j: int|
                        #![trigger calls[j]]
                        0 <= j < calls.len() ==> exists|q: &mut Parser|
                            #![trigger atom.ensures((q,), calls[j].result)]
                            {
                                &&& q.text() == old(self).text()
                                &&& q.offset() == calls[j].start
                                &&& final(q).offset() == calls[j].end
                                &&& atom.ensures((q,), calls[j].result)
                            }
                },
    {
        proof { self.lemma_wf(); }
        let ghost t = self.text();
        let ghost i = self.offset() as int;
        let ghost none: Seq<TermCall> = Seq::empty();
        let start = self.position();
        let name = match self.identifier() {
            Ok(n) => n,
            Err(e) => {
                proof { assert(field_result(*old(self), *self, Err::<Syntax, Box<ParseError>>(e), none)); }
                return Err(e);
            },
        };
        proof {
            lemma_trivia_end(t, i);
            lemma_ident_at(t, trivia_end(t, i));
            self.lemma_wf();
        }
        let ghost e = self.offset() as int;
        self.skip_whitespace();
        proof {
            lemma_trivia_end(t, e);
            self.lemma_wf();
        }
        match self.expect_char(':') {
            Ok(()) => {},
            Err(err) => {
                proof { assert(field_result(*old(self), *self, Err::<Syntax, Box<ParseError>>(err), none)); }
                return Err(err);
            },
        }
        let ghost s1 = self.offset() as int;
        self.skip_whitespace();
        proof {
            lemma_trivia_end(t, s1);
            self.lemma_wf();
        }
        let ghost c = self.offset() as int;
        let res = atom(self);
        proof { self.lemma_wf(); }
        let ghost calls = seq![TermCall { start: c, end: self.offset() as int, result: res }];
        let ty = match res {
            Ok(ty) => ty,
            Err(err) => {
                proof { assert(field_result(*old(self), *self, Err::<Syntax, Box<ParseError>>(err), calls)); }
                return Err(err);
            },
        };
        let range = self.input().range_from(start);
        let mut children: Vec<Syntax> = Vec::new();
        children.push(name);
        children.push(ty);
        let node = self.create_node(SyntaxKind::Field, range, children);
        proof { assert(field_result(*old(self), *self, Ok::<Syntax, Box<ParseError>>(node), calls)); }
        Ok(node)
    }

    /// A `deriving` clause `deriving Repr, BEq` (see `deriving_result`).
    pub fn deriving_clause(&mut self) -> (r: ParserResult<Syntax>)
        requires
            old(self).wf(),
        ensures
            final(self).wf(),
            deriving_result(*old(self), *final(self), r),
    {
        proof {
            self.lemma_wf();
            reveal_strlit("deriving");
        }
        let ghost t = self.text();
        let ghost i = self.offset() as int;
        let start = self.position();
        match self.keyword("deriving") {
            Ok(()) => {},
            Err(e) => {
                return Err(e);
            },
        }
        self.skip_whitespace();
        proof {
            lemma_trivia_end(t, i + 8);
            self.lemma_wf();
        }
        let ghost j0 = self.offset() as int;
        let first = match self.identifier() {
            Ok(n) => n,
            Err(e) => {
                proof { assert(deriving_result(*old(self), *self, Err::<Syntax, Box<ParseError>>(e))); }
                return Err(e);
            },
        };
        proof {
            lemma_ident_at(t, j0);
            self.lemma_wf();
        }
        let ghost e0 = self.offset() as int;
        let ghost name0 = match ident_lex(t, j0) {
            Lex::Token(name, _) => name,
            _ => arbitrary(),
        };
        let mut typeclasses: Vec<Syntax> = Vec::new();
        typeclasses.push(first);
        self.skip_whitespace();
        proof {
            lemma_trivia_end(t, e0);
            self.lemma_wf();
            crate::binder::lemma_trivia_idem(t, e0);
        }
        let ghost mut names: Seq<(int, int, Seq<char>)> = seq![(j0, e0, name0)];
        proof {
            assert(names_match(typeclasses@, names, t));
            assert(Seq::<(int, int, Seq<char>)>::empty().push((j0, e0, name0)) =~= names);
            let s1 = self.offset() as int;
            if 0 <= s1 < t.len() && t[s1] == ',' {
                lemma_trivia_end(t, s1 + 1);
            }
            assert(name_list(t, j0, Seq::empty()) == name_after(t, self.offset() as int, names));
        }
        while self.peek() == Some(',')
            invariant
                self.wf(),
                t == self.text(),
                t == old(self).text(),
                i == old(self).offset(),
                start == crate::syntax::pos_at(t, i as nat),
                keyword_at(t, i, "deriving"@),
                j0 == trivia_end(t, i + 8),
                j0 <= self.offset() <= t.len(),
                trivia_end(t, self.offset() as int) == self.offset(),
                names_match(typeclasses@, names, t),
                name_list(t, j0, Seq::empty()) == name_after(t, self.offset() as int, names),
            decreases t.len() - self.offset(),
        {
            proof { self.lemma_wf(); }
            let ghost s0 = self.offset() as int;
            self.advance();
            self.skip_whitespace();
            proof {
                lemma_trivia_end(t, s0 + 1);
                self.lemma_wf();
            }
            let ghost j = self.offset() as int;
            let n = match self.identifier() {
                Ok(n) => n,
                Err(e) => {
                    proof { assert(deriving_result(*old(self), *self, Err::<Syntax, Box<ParseError>>(e))); }
                    return Err(e);
                },
            };
            proof {
                lemma_ident_at(t, j);
                self.lemma_wf();
            }
            let ghost e = self.offset() as int;
            let ghost name = match ident_lex(t, j) {
                Lex::Token(name, _) => name,
                _ => arbitrary(),
            };
            let ghost names0 = names;
            typeclasses.push(n);
            self.skip_whitespace();
            proof {
                lemma_trivia_end(t, e);
                crate::binder::lemma_trivia_idem(t, e);
                self.lemma_wf();
                names = names.push((j, e, name));
                assert forall|m: int| 0 <= m < names.len() implies #[trigger] is_name_atom(typeclasses@[m], t, names[m].0, names[m].1, names[m].2) by {
                    if m < names0.len() {
                        assert(is_name_atom(typeclasses@[m], t, names0[m].0, names0[m].1, names0[m].2));
                    }
                }
                let s2 = self.offset() as int;
                if 0 <= s2 < t.len() && t[s2] == ',' {
                    lemma_trivia_end(t, s2 + 1);
                }
                assert(name_list(t, j, names0) == name_after(t, s2, names));
            }
        }
        let range = self.input().range_from(start);
        let node = self.create_node(SyntaxKind::Deriving, range, typeclasses);
        proof { assert(deriving_result(*old(self), *self, Ok::<Syntax, Box<ParseError>>(node))); }
        Ok(node)
    }

    /// Does a binder bracket `{`, `[` or `(` stand at the cursor?
    pub fn at_binder_open(&self) -> (b: bool)
        requires
            self.wf(),
        ensures
            b == binder_open(self.next_char()),
    {
        let c = self.peek();
        c == Some('{') || c == Some('[') || c == Some('(')
    }

    /// Binder groups at the cursor, one after another while a binder
    /// bracket stands there, each followed by whitespace and comments (see
    /// `binders_result`; the calls are ones that `term` can make).
    #[verifier::spinoff_prover]
    #[verifier::rlimit(60)]
    pub fn parse_binders<F>(&mut self, term: F) -> (r: ParserResult<Vec<Syntax>>) where
        F: Fn(&mut Parser) -> ParserResult<Syntax> + Copy,
        requires
            old(self).wf(),
            forall|q: &mut Parser| q.wf() ==> term.requires((q,)),
            forall|q: &mut Parser, x: ParserResult<Syntax>|
                term.ensures((q,), x) ==> {
                    &&& final(q).wf()
                    &&& final(q).text() == q.text()
                    &&& final(q).offset() >= q.offset()
                },
        ensures
            final(self).wf(),
            r is Ok ==> final(self).offset() >= old(self).offset(),
            exists|calls: Seq<TermCall>, steps: Seq<BinderStep>, phase: BinderPhase|
                #![trigger binders_result(*old(self), *final(self), r, calls, steps, phase)]
                {
                    &&& binders_result(*old(self), *final(self), r, calls, steps, phase)
                    &&& forall|j: int|
                        #![trigger calls[j]]
                        0 <= j < calls.len() ==> exists|q: &mut Parser|
                            #![trigger term.ensures((q,), calls[j].result)]
                            {
                                &&& q.text() == old(self).text()
                                &&& q.offset() == calls[j].start
                                &&& final(q).offset() == calls[j].end
                                &&& term.ensures((q,), calls[j].result)
                            }
                },
    {
        proof { self.lemma_wf(); }
        let ghost t = self.text();
        let ghost k0 = self.offset() as int;
        let mut binders: Vec<Syntax> = Vec::new();
        proof {
            assert(binders_so_far(t, k0, k0, Seq::empty(), binders@));
            assert(flatten(Seq::<BinderStep>::empty()).len() == 0);
        }
        while self.at_binder_open()
            invariant
                self.wf(),
                t == self.text(),
                t == old(self).text(),
                k0 == old(self).offset(),
                k0 <= self.offset() <= t.len(),
                forall|q: &mut Parser| q.wf() ==> term.requires((q,)),
                forall|q: &mut Parser, x: ParserResult<Syntax>|
                    term.ensures((q,), x) ==> {
                        &&& final(q).wf()
                        &&& final(q).text() == q.text()
                        &&& final(q).offset() >= q.offset()
                    },
                exists|steps: Seq<BinderStep>|
                    #![trigger binders_so_far(t, k0, self.offset() as int, steps, binders@)]
                    {
                        &&& binders_so_far(t, k0, self.offset() as int, steps, binders@)
                        &&& forall|j: int|
                            #![trigger flatten(steps)[j]]
                            0 <= j < flatten(steps).len() ==> exists|q: &mut Parser|
                                #![trigger term.ensures((q,), flatten(steps)[j].result)]
                                {
                                    &&& q.text() == t
                                    &&& q.offset() == flatten(steps)[j].start
                                    &&& final(q).offset() == flatten(steps)[j].end
                                    &&& term.ensures((q,), flatten(steps)[j].result)
                                }
                    },
            decreases t.len() - self.offset(),
        {
            proof { self.lemma_wf(); }
            let ghost k = self.offset() as int;
            let ghost v0 = binders@;
            let ghost steps0 = choose|steps: Seq<BinderStep>|
                {
                    &&& binders_so_far(t, k0, k, steps, v0)
                        &&& forall|j: int|
                            #![trigger flatten(steps)[j]]
                            0 <= j < flatten(steps).len() ==> exists|q: &mut Parser|
                                #![trigger term.ensures((q,), flatten(steps)[j].result)]
                                {
                                    &&& q.text() == t
                                    &&& q.offset() == flatten(steps)[j].start
                                    &&& final(q).offset() == flatten(steps)[j].end
                                    &&& term.ensures((q,), flatten(steps)[j].result)
                                }
                };
            let ghost p1 = *self;
            let res = self.binder_group(term);
            let ghost q1 = *self;
            let ghost cs = choose|cs: Seq<TermCall>|
                {
                    &&& binder_result(p1, q1, res, cs)
                    &&& forall|j: int|
                        #![trigger cs[j]]
                        0 <= j < cs.len() ==> exists|q: &mut Parser|
                            #![trigger term.ensures((q,), cs[j].result)]
                            {
                                &&& q.text() == t
                                &&& q.offset() == cs[j].start
                                &&& final(q).offset() == cs[j].end
                                &&& term.ensures((q,), cs[j].result)
                            }
                };
            let ghost all = flatten(steps0) + cs;
            proof {
                self.lemma_wf();
                assert forall|j: int| #![trigger all[j]] 0 <= j < all.len() implies exists|q: &mut Parser|
                    #![trigger term.ensures((q,), all[j].result)]
                    {
                        &&& q.text() == t
                        &&& q.offset() == all[j].start
                        &&& final(q).offset() == all[j].end
                        &&& term.ensures((q,), all[j].result)
                    } by {
                    if j < flatten(steps0).len() {
                        assert(all[j] == flatten(steps0)[j]);
                    } else {
                        assert(all[j] == cs[j - flatten(steps0).len()]);
                    }
                }
            }
            let b = match res {
                Ok(b) => b,
                Err(e) => {
                    proof {
                        let phase = BinderPhase::Failed(k, cs, e, self.offset() as int);
                        assert(binder_result(p1, q1, Err::<Syntax, Box<ParseError>>(e), cs));
                        assert(k == step_pos(t, k0, steps0, steps0.len() as int));
                        assert(binder_open(char_at_spec(t, k)));
                        assert(binder_result(p1, q1, Err::<Syntax, Box<ParseError>>(phase->Failed_2), phase->Failed_1));
                        assert(binders_valid(t, k0, steps0, phase));
                        assert(binders_result(*old(self), *self, Err::<Vec<Syntax>, Box<ParseError>>(e), all, steps0, phase));
                    }
                    return Err(e);
                },
            };
            let ghost e = self.offset() as int;
            let ghost step = BinderStep { start: k, end: e, result: b, calls: cs };
            binders.push(b);
            self.skip_whitespace();
            proof {
                lemma_trivia_end(t, e);
                self.lemma_wf();
                let steps1 = steps0.push(step);
                assert(steps1.drop_last() =~= steps0);
                assert(flatten(steps1) == all);
                assert(binder_result(p1, q1, Ok::<Syntax, Box<ParseError>>(step.result), step.calls));
                assert(binder_ok(t, step));
                assert forall|m: int| 0 <= m < steps1.len() implies {
                    &&& #[trigger] steps1[m].start == step_pos(t, k0, steps1, m)
                    &&& binder_open(char_at_spec(t, steps1[m].start))
                    &&& binder_ok(t, steps1[m])
                } by {
                    if m < steps0.len() {
                        assert(steps1[m] == steps0[m]);
                        if m > 0 {
                            assert(steps1[m - 1] == steps0[m - 1]);
                        }
                        assert(steps0[m].start == step_pos(t, k0, steps0, m));
                    } else {
                        if m > 0 {
                            assert(steps1[m - 1] == steps0[m - 1]);
                        }
                    }
                }
                assert forall|m: int| 0 <= m < steps1.len() implies #[trigger] binders@[m] == steps1[m].result by {
                    if m < steps0.len() {
                        assert(v0[m] == steps0[m].result);
                    }
                }
                assert(binders_so_far(t, k0, self.offset() as int, steps1, binders@));
            }
        }
        let ghost kb = self.offset() as int;
        let ghost steps = choose|steps: Seq<BinderStep>|
            {
                &&& binders_so_far(t, k0, kb, steps, binders@)
                        &&& forall|j: int|
                            #![trigger flatten(steps)[j]]
                            0 <= j < flatten(steps).len() ==> exists|q: &mut Parser|
                                #![trigger term.ensures((q,), flatten(steps)[j].result)]
                                {
                                    &&& q.text() == t
                                    &&& q.offset() == flatten(steps)[j].start
                                    &&& final(q).offset() == flatten(steps)[j].end
                                    &&& term.ensures((q,), flatten(steps)[j].result)
                                }
            };
        let r = Ok(binders);
        proof {
            assert(binders_result(*old(self), *self, r, flatten(steps), steps, BinderPhase::Ended(kb)));
        }
        r
    }

    /// A declaration `kw [name] binders [: type := value]` (see
    /// `binder_decl_result`; the calls are ones that `term` can make).
    #[verifier::spinoff_prover]
    #[verifier::rlimit(80)]
    fn binder_decl<F>(&mut self, kw: &str, named: bool, with_body: bool, kind: SyntaxKind, term: F) -> (r: ParserResult<Syntax>) where
        F: Fn(&mut Parser) -> ParserResult<Syntax> + Copy,
        requires
            old(self).wf(),
            forall|q: &mut Parser| q.wf() ==> term.requires((q,)),
            forall|q: &mut Parser, x: ParserResult<Syntax>|
                term.ensures((q,), x) ==> {
                    &&& final(q).wf()
                    &&& final(q).text() == q.text()
                    &&& final(q).offset() >= q.offset()
                },
        ensures
            final(self).wf(),
            exists|calls: Seq<TermCall>, steps: Seq<BinderStep>, phase: BinderPhase|
                #![trigger binder_decl_result(*old(self), *final(self), r, calls, steps, phase, kw@, named, with_body, kind)]
                {
                    &&& binder_decl_result(*old(self), *final(self), r, calls, steps, phase, kw@, named, with_body, kind)
                    &&& forall|j: int|
                        #![trigger calls[j]]
                        0 <= j < calls.len() ==> exists|q: &mut Parser|
                            #![trigger term.ensures((q,), calls[j].result)]
                            {
                                &&& q.text() == old(self).text()
                                &&& q.offset() == calls[j].start
                                &&& final(q).offset() == calls[j].end
                                &&& term.ensures((q,), calls[j].result)
                            }
                },
    {
        proof { self.lemma_wf(); }
        let ghost t = self.text();
        let ghost i = self.offset() as int;
        let ghost none: Seq<TermCall> = Seq::empty();
        let ghost nosteps: Seq<BinderStep> = Seq::empty();
        let ghost anyphase = BinderPhase::Ended(0);
        let start = self.position();
        match self.keyword(kw) {
            Ok(()) => {},
            Err(e) => {
                proof { assert(binder_decl_result(*old(self), *self, Err::<Syntax, Box<ParseError>>(e), none, nosteps, anyphase, kw@, named, with_body, kind)); }
                return Err(e);
            },
        }
        self.skip_whitespace();
        proof {
            lemma_trivia_end(t, i + kw@.len());
            self.lemma_wf();
        }
        let ghost j = self.offset() as int;
        let mut children: Vec<Syntax> = Vec::new();
        let ghost mut name_spec: Option<(int, int, Seq<char>)> = None;
        if named {
            let name = match self.identifier() {
                Ok(n) => n,
                Err(e) => {
                    proof { assert(binder_decl_result(*old(self), *self, Err::<Syntax, Box<ParseError>>(e), none, nosteps, anyphase, kw@, named, with_body, kind)); }
                    return Err(e);
                },
            };
            proof {
                lemma_ident_at(t, j);
                self.lemma_wf();
                name_spec = match ident_lex(t, j) {
                    Lex::Token(v, e) => Some((j, e, v)),
                    _ => None,
                };
            }
            let ghost e = self.offset() as int;
            children.push(name);
            self.skip_whitespace();
            proof {
                lemma_trivia_end(t, e);
                self.lemma_wf();
            }
        }
        let ghost k0 = self.offset() as int;
        let ghost prefix = children@;
        let ghost p1 = *self;
        let binders_res = self.parse_binders(term);
        let ghost (bcalls, steps, phase) = choose|calls: Seq<TermCall>, steps: Seq<BinderStep>, phase: BinderPhase|
            {
                &&& binders_result(p1, *self, binders_res, calls, steps, phase)
                &&& forall|jj: int|
                    #![trigger calls[jj]]
                    0 <= jj < calls.len() ==> exists|q: &mut Parser|
                        #![trigger term.ensures((q,), calls[jj].result)]
                        {
                            &&& q.text() == t
                            &&& q.offset() == calls[jj].start
                            &&& final(q).offset() == calls[jj].end
                            &&& term.ensures((q,), calls[jj].result)
                        }
            };
        proof {
            self.lemma_wf();
            assert(bcalls.subrange(0, flatten(steps).len() as int) =~= flatten(steps));
        }
        let mut binders = match binders_res {
            Ok(v) => v,
            Err(e) => {
                proof {
                    assert(binder_decl_result(*old(self), *self, Err::<Syntax, Box<ParseError>>(e), bcalls, steps, phase, kw@, named, with_body, kind));
                }
                return Err(e);
            },
        };
        let ghost kb = self.offset() as int;
        let ghost vb = binders@;
        children.append(&mut binders);
        if !with_body {
            let range = self.input().range_from(start);
            let ghost cs = children@;
            let node = self.create_node(kind, range, children);
            proof {
                assert(cs =~= prefix + vb);
                assert(decl_children(cs, t, name_spec, steps, Seq::empty()));
                assert(binder_decl_result(*old(self), *self, Ok::<Syntax, Box<ParseError>>(node), bcalls, steps, phase, kw@, named, with_body, kind));
            }
            return Ok(node);
        }
        proof { assert(bcalls.subrange(flatten(steps).len() as int, bcalls.len() as int) =~= none); }
        match self.expect_char(':') {
            Ok(()) => {},
            Err(e) => {
                proof { assert(binder_decl_result(*old(self), *self, Err::<Syntax, Box<ParseError>>(e), bcalls, steps, phase, kw@, named, with_body, kind)); }
                return Err(e);
            },
        }
        self.skip_whitespace();
        proof {
            lemma_trivia_end(t, kb + 1);
            self.lemma_wf();
        }
        let ghost c1 = self.offset() as int;
        let res1 = term(self);
        proof { self.lemma_wf(); }
        let ghost call1 = TermCall { start: c1, end: self.offset() as int, result: res1 };
        let ghost calls1 = bcalls.push(call1);
        proof {
            assert(calls1.subrange(0, flatten(steps).len() as int) =~= flatten(steps));
            assert(calls1.subrange(flatten(steps).len() as int, calls1.len() as int) =~= seq![call1]);
                assert forall|jj: int| #![trigger calls1[jj]] 0 <= jj < calls1.len() implies exists|q: &mut Parser|
                    #![trigger term.ensures((q,), calls1[jj].result)]
                    {
                        &&& q.text() == t
                        &&& q.offset() == calls1[jj].start
                        &&& final(q).offset() == calls1[jj].end
                        &&& term.ensures((q,), calls1[jj].result)
                    } by {
                    if jj < bcalls.len() {
                        assert(calls1[jj] == bcalls[jj]);
                    }
                }
        }
        let ty = match res1 {
            Ok(ty) => ty,
            Err(e) => {
                proof { assert(binder_decl_result(*old(self), *self, Err::<Syntax, Box<ParseError>>(e), calls1, steps, phase, kw@, named, with_body, kind)); }
                return Err(e);
            },
        };
        self.skip_whitespace();
        proof {
            lemma_trivia_end(t, call1.end);
            self.lemma_wf();
            reveal_strlit(":=");
        }
        let ghost n = self.offset() as int;
        if self.peek() == Some(':') {
            self.advance();
            match self.expect_char('=') {
                Ok(()) => {},
                Err(e) => {
                    proof { assert(binder_decl_result(*old(self), *self, Err::<Syntax, Box<ParseError>>(e), calls1, steps, phase, kw@, named, with_body, kind)); }
                    return Err(e);
                },
            }
        } else {
            let e = ParseError::expected(":=", self.position());
            proof { assert(binder_decl_result(*old(self), *self, Err::<Syntax, Box<ParseError>>(e), calls1, steps, phase, kw@, named, with_body, kind)); }
            return Err(e);
        }
        self.skip_whitespace();
        proof {
            lemma_trivia_end(t, n + 2);
            self.lemma_wf();
        }
        let ghost c2 = self.offset() as int;
        let res2 = term(self);
        proof { self.lemma_wf(); }
        let ghost call2 = TermCall { start: c2, end: self.offset() as int, result: res2 };
        let ghost calls2 = calls1.push(call2);
        proof {
            assert(calls2.subrange(0, flatten(steps).len() as int) =~= flatten(steps));
            assert(calls2.subrange(flatten(steps).len() as int, calls2.len() as int) =~= seq![call1, call2]);
            assert forall|jj: int| #![trigger calls2[jj]] 0 <= jj < calls2.len() implies exists|q: &mut Parser|
                #![trigger term.ensures((q,), calls2[jj].result)]
                {
                    &&& q.text() == t
                    &&& q.offset() == calls2[jj].start
                    &&& final(q).offset() == calls2[jj].end
                    &&& term.ensures((q,), calls2[jj].result)
                } by {
                if jj < calls1.len() {
                    assert(calls2[jj] == calls1[jj]);
                }
            }
        }
        let value = match res2 {
            Ok(v) => v,
            Err(e) => {
                proof { assert(binder_decl_result(*old(self), *self, Err::<Syntax, Box<ParseError>>(e), calls2, steps, phase, kw@, named, with_body, kind)); }
                return Err(e);
            },
        };
        let ghost gty = ty;
        let ghost gvalue = value;
        children.push(ty);
        children.push(value);
        let range = self.input().range_from(start);
        let ghost cs = children@;
        let node = self.create_node(kind, range, children);
        proof {
            assert(cs =~= prefix + vb + seq![gty, gvalue]);
            assert(decl_children(cs, t, name_spec, steps, seq![gty, gvalue]));
            assert(binder_decl_result(*old(self), *self, Ok::<Syntax, Box<ParseError>>(node), calls2, steps, phase, kw@, named, with_body, kind));
        }
        Ok(node)
    }

    /// `variable {α : Type} (x : α)`: binder groups, the children of a
    /// `Variable` node (see `binder_decl_result`; the calls are ones that
    /// `term` can make).
    pub fn variable_command<F>(&mut self, term: F) -> (r: ParserResult<Syntax>) where
        F: Fn(&mut Parser) -> ParserResult<Syntax> + Copy,
        requires
            old(self).wf(),
            forall|q: &mut Parser| q.wf() ==> term.requires((q,)),
            forall|q: &mut Parser, x: ParserResult<Syntax>|
                term.ensures((q,), x) ==> {
                    &&& final(q).wf()
                    &&& final(q).text() == q.text()
                    &&& final(q).offset() >= q.offset()
                },
        ensures
            final(self).wf(),
            exists|calls: Seq<TermCall>, steps: Seq<BinderStep>, phase: BinderPhase|
                #![trigger binder_decl_result(*old(self), *final(self), r, calls, steps, phase, "variable"@, false, false, SyntaxKind::Variable)]
                {
                    &&& binder_decl_result(*old(self), *final(self), r, calls, steps, phase, "variable"@, false, false, SyntaxKind::Variable)
                    &&& forall|j: int|
                        #![trigger calls[j]]
                        0 <= j < calls.len() ==> exists|q: &mut Parser|
                            #![trigger term.ensures((q,), calls[j].result)]
                            {
                                &&& q.text() == old(self).text()
                                &&& q.offset() == calls[j].start
                                &&& final(q).offset() == calls[j].end
                                &&& term.ensures((q,), calls[j].result)
                            }
                },
    {
        self.binder_decl("variable", false, false, SyntaxKind::Variable, term)
    }

    /// `theorem name binders : type := proof`: a `Theorem` node of the name,
    /// the binder groups, the type and the proof (see
    /// `binder_decl_result`; the calls are ones that `term` can make).
    pub fn theorem_command<F>(&mut self, term: F) -> (r: ParserResult<Syntax>) where
        F: Fn(&mut Parser) -> ParserResult<Syntax> + Copy,
        requires
            old(self).wf(),
            forall|q: &mut Parser| q.wf() ==> term.requires((q,)),
            forall|q: &mut Parser, x: ParserResult<Syntax>|
                term.ensures((q,), x) ==> {
                    &&& final(q).wf()
                    &&& final(q).text() == q.text()
                    &&& final(q).offset() >= q.offset()
                },
        ensures
            final(self).wf(),
            exists|calls: Seq<TermCall>, steps: Seq<BinderStep>, phase: BinderPhase|
                #![trigger binder_decl_result(*old(self), *final(self), r, calls, steps, phase, "theorem"@, true, true, SyntaxKind::Theorem)]
                {
                    &&& binder_decl_result(*old(self), *final(self), r, calls, steps, phase, "theorem"@, true, true, SyntaxKind::Theorem)
                    &&& forall|j: int|
                        #![trigger calls[j]]
                        0 <= j < calls.len() ==> exists|q: &mut Parser|
                            #![trigger term.ensures((q,), calls[j].result)]
                            {
                                &&& q.text() == old(self).text()
                                &&& q.offset() == calls[j].start
                                &&& final(q).offset() == calls[j].end
                                &&& term.ensures((q,), calls[j].result)
                            }
                },
    {
        self.binder_decl("theorem", true, true, SyntaxKind::Theorem, term)
    }

    /// `example binders : type := proof`: a `Theorem` node of the binder
    /// groups, the type and the proof (see `binder_decl_result`; the calls
    /// are ones that `term` can make).
    pub fn example_command<F>(&mut self, term: F) -> (r: ParserResult<Syntax>) where
        F: Fn(&mut Parser) -> ParserResult<Syntax> + Copy,
        requires
            old(self).wf(),
            forall|q: &mut Parser| q.wf() ==> term.requires((q,)),
            forall|q: &mut Parser, x: ParserResult<Syntax>|
                term.ensures((q,), x) ==> {
                    &&& final(q).wf()
                    &&& final(q).text() == q.text()
                    &&& final(q).offset() >= q.offset()
                },
        ensures
            final(self).wf(),
            exists|calls: Seq<TermCall>, steps: Seq<BinderStep>, phase: BinderPhase|
                #![trigger binder_decl_result(*old(self), *final(self), r, calls, steps, phase, "example"@, false, true, SyntaxKind::Theorem)]
                {
                    &&& binder_decl_result(*old(self), *final(self), r, calls, steps, phase, "example"@, false, true, SyntaxKind::Theorem)
                    &&& forall|j: int|
                        #![trigger calls[j]]
                        0 <= j < calls.len() ==> exists|q: &mut Parser|
                            #![trigger term.ensures((q,), calls[j].result)]
                            {
                                &&& q.text() == old(self).text()
                                &&& q.offset() == calls[j].start
                                &&& final(q).offset() == calls[j].end
                                &&& term.ensures((q,), calls[j].result)
                            }
                },
    {
        self.binder_decl("example", false, true, SyntaxKind::Theorem, term)
    }

    /// `abbrev name binders [: type] := body` (see `abbrev_result`; the
    /// calls are ones that `term` can make).
    #[verifier::spinoff_prover]
    #[verifier::rlimit(80)]
    pub fn abbrev_command<F>(&mut self, term: F) -> (r: ParserResult<Syntax>) where
        F: Fn(&mut Parser) -> ParserResult<Syntax> + Copy,
        requires
            old(self).wf(),
            forall|q: &mut Parser| q.wf() ==> term.requires((q,)),
            forall|q: &mut Parser, x: ParserResult<Syntax>|
                term.ensures((q,), x) ==> {
                    &&& final(q).wf()
                    &&& final(q).text() == q.text()
                    &&& final(q).offset() >= q.offset()
                },
        ensures
            final(self).wf(),
            exists|calls: Seq<TermCall>, steps: Seq<BinderStep>, phase: BinderPhase|
                #![trigger abbrev_result(*old(self), *final(self), r, calls, steps, phase)]
                {
                    &&& abbrev_result(*old(self), *final(self), r, calls, steps, phase)
                    &&& forall|j: int|
                        #![trigger calls[j]]
                        0 <= j < calls.len() ==> exists|q: &mut Parser|
                            #![trigger term.ensures((q,), calls[j].result)]
                            {
                                &&& q.text() == old(self).text()
                                &&& q.offset() == calls[j].start
                                &&& final(q).offset() == calls[j].end
                                &&& term.ensures((q,), calls[j].result)
                            }
                },
    {
        proof {
            self.lemma_wf();
            reveal_strlit("abbrev");
            reveal_strlit(":=");
        }
        let ghost t = self.text();
        let ghost i = self.offset() as int;
        let ghost none: Seq<TermCall> = Seq::empty();
        let ghost nosteps: Seq<BinderStep> = Seq::empty();
        let ghost anyphase = BinderPhase::Ended(0);
        let start = self.position();
        match self.keyword("abbrev") {
            Ok(()) => {},
            Err(e) => {
                proof { assert(abbrev_result(*old(self), *self, Err::<Syntax, Box<ParseError>>(e), none, nosteps, anyphase)); }
                return Err(e);
            },
        }
        self.skip_whitespace();
        proof {
            lemma_trivia_end(t, i + 6);
            self.lemma_wf();
        }
        let ghost j = self.offset() as int;
        let name = match self.identifier() {
            Ok(n) => n,
            Err(e) => {
                proof { assert(abbrev_result(*old(self), *self, Err::<Syntax, Box<ParseError>>(e), none, nosteps, anyphase)); }
                return Err(e);
            },
        };
        proof {
            lemma_ident_at(t, j);
            self.lemma_wf();
        }
        let ghost e = self.offset() as int;
        let ghost name_spec = match ident_lex(t, j) {
            Lex::Token(v, e) => Some((j, e, v)),
            _ => None,
        };
        let mut children: Vec<Syntax> = Vec::new();
        children.push(name);
        self.skip_whitespace();
        proof {
            lemma_trivia_end(t, e);
            self.lemma_wf();
        }
        let ghost prefix = children@;
        let ghost p1 = *self;
        let binders_res = self.parse_binders(term);
        let ghost (bcalls, steps, phase) = choose|calls: Seq<TermCall>, steps: Seq<BinderStep>, phase: BinderPhase|
            {
                &&& binders_result(p1, *self, binders_res, calls, steps, phase)
                &&& forall|jj: int|
                    #![trigger calls[jj]]
                    0 <= jj < calls.len() ==> exists|q: &mut Parser|
                        #![trigger term.ensures((q,), calls[jj].result)]
                        {
                            &&& q.text() == t
                            &&& q.offset() == calls[jj].start
                            &&& final(q).offset() == calls[jj].end
                            &&& term.ensures((q,), calls[jj].result)
                        }
            };
        let ghost fl = flatten(steps);
        proof {
            self.lemma_wf();
            assert(bcalls.subrange(0, fl.len() as int) =~= fl);
        }
        let mut binders = match binders_res {
            Ok(v) => v,
            Err(e) => {
                proof { assert(abbrev_result(*old(self), *self, Err::<Syntax, Box<ParseError>>(e), bcalls, steps, phase)); }
                return Err(e);
            },
        };
        let ghost kb = self.offset() as int;
        let ghost vb = binders@;
        children.append(&mut binders);
        let ghost mut call1_opt: Option<TermCall> = None;
        let mut ty: Option<Syntax> = None;
        proof {
            assert(bcalls.subrange(fl.len() as int, bcalls.len() as int) =~= none);
        }
        if self.peek() == Some(':') && self.peek_nth(1) != Some('=') {
            self.advance();
            self.skip_whitespace();
            proof {
                lemma_trivia_end(t, kb + 1);
                self.lemma_wf();
            }
            let ghost c1 = self.offset() as int;
            let res1 = term(self);
            proof { self.lemma_wf(); }
            let ghost call1 = TermCall { start: c1, end: self.offset() as int, result: res1 };
            proof { call1_opt = Some(call1); }
            match res1 {
                Ok(x) => {
                    ty = Some(x);
                },
                Err(err) => {
                    proof {
                        let calls = bcalls.push(call1);
                        assert(calls.subrange(0, fl.len() as int) =~= fl);
                        assert(calls.subrange(fl.len() as int, calls.len() as int) =~= seq![call1]);
                        assert forall|jj: int| #![trigger calls[jj]] 0 <= jj < calls.len() implies exists|q: &mut Parser|
                            #![trigger term.ensures((q,), calls[jj].result)]
                            {
                                &&& q.text() == t
                                &&& q.offset() == calls[jj].start
                                &&& final(q).offset() == calls[jj].end
                                &&& term.ensures((q,), calls[jj].result)
                            } by {
                            if jj < bcalls.len() {
                                assert(calls[jj] == bcalls[jj]);
                            }
                        }
                        assert(abbrev_result(*old(self), *self, Err::<Syntax, Box<ParseError>>(err), calls, steps, phase));
                    }
                    return Err(err);
                },
            }
            let ghost end1 = self.offset() as int;
            self.skip_whitespace();
            proof {
                lemma_trivia_end(t, end1);
                self.lemma_wf();
            }
        } else {
            self.skip_whitespace();
            proof { lemma_trivia_end(t, kb); }
        }
        proof { self.lemma_wf(); }
        let ghost n = self.offset() as int;
        let ghost calls_before = match call1_opt {
            Some(c) => bcalls.push(c),
            None => bcalls,
        };
        proof {
            assert(calls_before.subrange(0, fl.len() as int) =~= fl);
            assert forall|jj: int| #![trigger calls_before[jj]] 0 <= jj < calls_before.len() implies exists|q: &mut Parser|
                #![trigger term.ensures((q,), calls_before[jj].result)]
                {
                    &&& q.text() == t
                    &&& q.offset() == calls_before[jj].start
                    &&& final(q).offset() == calls_before[jj].end
                    &&& term.ensures((q,), calls_before[jj].result)
                } by {
                if jj < bcalls.len() {
                    assert(calls_before[jj] == bcalls[jj]);
                }
            }
        }
        if self.peek() == Some(':') && self.peek_nth(1) == Some('=') {
            self.advance();
            self.advance();
        } else {
            let err = ParseError::expected(":=", self.position());
            proof { assert(abbrev_result(*old(self), *self, Err::<Syntax, Box<ParseError>>(err), calls_before, steps, phase)); }
            return Err(err);
        }
        self.skip_whitespace();
        proof {
            lemma_trivia_end(t, n + 2);
            self.lemma_wf();
        }
        let ghost c2 = self.offset() as int;
        let res2 = term(self);
        proof { self.lemma_wf(); }
        let ghost call2 = TermCall { start: c2, end: self.offset() as int, result: res2 };
        let ghost calls = calls_before.push(call2);
        proof {
            assert(calls.subrange(0, fl.len() as int) =~= fl);
            assert(calls.subrange(fl.len() as int, calls.len() as int) =~= calls_before.subrange(fl.len() as int, calls_before.len() as int).push(call2));
            assert forall|jj: int| #![trigger calls[jj]] 0 <= jj < calls.len() implies exists|q: &mut Parser|
                #![trigger term.ensures((q,), calls[jj].result)]
                {
                    &&& q.text() == t
                    &&& q.offset() == calls[jj].start
                    &&& final(q).offset() == calls[jj].end
                    &&& term.ensures((q,), calls[jj].result)
                } by {
                if jj < calls_before.len() {
                    assert(calls[jj] == calls_before[jj]);
                }
            }
        }
        let body = match res2 {
            Ok(b) => b,
            Err(err) => {
                proof { assert(abbrev_result(*old(self), *self, Err::<Syntax, Box<ParseError>>(err), calls, steps, phase)); }
                return Err(err);
            },
        };
        let ghost gty = ty;
        let ghost gbody = body;
        match ty {
            Some(x) => {
                children.push(x);
            },
            None => {},
        }
        children.push(body);
        let range = self.input().range_from(start);
        let ghost cs = children@;
        let node = self.create_node(SyntaxKind::Abbrev, range, children);
        proof {
            let tail = match gty {
                Some(y) => seq![y, gbody],
                None => seq![gbody],
            };
            assert(cs =~= prefix + vb + tail);
            assert(decl_children(cs, t, name_spec, steps, tail));
            assert(abbrev_result(*old(self), *self, Ok::<Syntax, Box<ParseError>>(node), calls, steps, phase));
        }
        Ok(node)
    }

    /// A constructor of an inductive type, `name [: type]` (see
    /// `constructor_result`; the call is one that `term` can make).
    pub fn inductive_constructor<F>(&mut self, term: F) -> (r: ParserResult<Syntax>) where
        F: Fn(&mut Parser) -> ParserResult<Syntax>,
        requires
            old(self).wf(),
            forall|q: &mut Parser| q.wf() ==> term.requires((q,)),
            forall|q: &mut Parser, x: ParserResult<Syntax>|
                term.ensures((q,), x) ==> {
                    &&& final(q).wf()
                    &&& final(q).text() == q.text()
                    &&& final(q).offset() >= q.offset()
                },
        ensures
            final(self).wf(),
            r is Ok ==> final(self).offset() > old(self).offset(),
            exists|calls: Seq<TermCall>|
                #![trigger constructor_result(*old(self), *final(self), r, calls)]
                {
                    &&& constructor_result(*old(self), *final(self), r, calls)
                    &&& forall|j: int|
                        #![trigger calls[j]]
                        0 <= j < calls.len() ==> exists|q: &mut Parser|
                            #![trigger term.ensures((q,), calls[j].result)]
                            {
                                &&& q.text() == old(self).text()
                                &&& q.offset() == calls[j].start
                                &&& final(q).offset() == calls[j].end
                                &&& term.ensures((q,), calls[j].result)
                            }
                },
    {
        proof { self.lemma_wf(); }
        let ghost t = self.text();
        let ghost i = self.offset() as int;
        let ghost none: Seq<TermCall> = Seq::empty();
        let start = self.position();
        let name = match self.identifier() {
            Ok(n) => n,
            Err(e) => {
                proof { assert(constructor_result(*old(self), *self, Err::<Syntax, Box<ParseError>>(e), none)); }
                return Err(e);
            },
        };
        proof {
            lemma_trivia_end(t, i);
            lemma_ident_at(t, trivia_end(t, i));
            self.lemma_wf();
        }
        let ghost e = self.offset() as int;
        self.skip_whitespace();
        proof {
            lemma_trivia_end(t, e);
            self.lemma_wf();
        }
        let ghost s1 = self.offset() as int;
        let mut children: Vec<Syntax> = Vec::new();
        children.push(name);
        if self.peek() != Some(':') {
            let range = self.input().range_from(start);
            let node = self.create_node(SyntaxKind::Constructor, range, children);
            proof { assert(constructor_result(*old(self), *self, Ok::<Syntax, Box<ParseError>>(node), none)); }
            return Ok(node);
        }
        self.advance();
        self.skip_whitespace();
        proof {
            lemma_trivia_end(t, s1 + 1);
            self.lemma_wf();
        }
        let ghost c = self.offset() as int;
        let res = term(self);
        proof { self.lemma_wf(); }
        let ghost calls = seq![TermCall { start: c, end: self.offset() as int, result: res }];
        let ty = match res {
            Ok(ty) => ty,
            Err(err) => {
                proof { assert(constructor_result(*old(self), *self, Err::<Syntax, Box<ParseError>>(err), calls)); }
                return Err(err);
            },
        };
        children.push(ty);
        let range = self.input().range_from(start);
        let node = self.create_node(SyntaxKind::Constructor, range, children);
        proof { assert(constructor_result(*old(self), *self, Ok::<Syntax, Box<ParseError>>(node), calls)); }
        Ok(node)
    }

    /// `instance [name] : type := value` or `instance [name] : type where
    /// ...` (see `instance_result`; the calls are ones that `term` and
    /// `atom` can make).
    #[verifier::spinoff_prover]
    #[verifier::rlimit(60)]
    pub fn instance_command<T, A>(&mut self, term: T, atom: A) -> (r: ParserResult<Syntax>) where
        T: Fn(&mut Parser) -> ParserResult<Syntax>,
        A: Fn(&mut Parser) -> ParserResult<Syntax>,
        requires
            old(self).wf(),
            forall|q: &mut Parser| q.wf() ==> term.requires((q,)),
            forall|q: &mut Parser, x: ParserResult<Syntax>|
                term.ensures((q,), x) ==> {
                    &&& final(q).wf()
                    &&& final(q).text() == q.text()
                    &&& final(q).offset() >= q.offset()
                },
            forall|q: &mut Parser| q.wf() ==> atom.requires((q,)),
            forall|q: &mut Parser, x: ParserResult<Syntax>|
                atom.ensures((q,), x) ==> {
                    &&& final(q).wf()
                    &&& final(q).text() == q.text()
                    &&& final(q).offset() >= q.offset()
                },
        ensures
            final(self).wf(),
            exists|tcalls: Seq<TermCall>, acalls: Seq<TermCall>|
                #![trigger instance_result(*old(self), *final(self), r, tcalls, acalls)]
                {
                    &&& instance_result(*old(self), *final(self), r, tcalls, acalls)
                    &&& forall|j: int|
                        #![trigger tcalls[j]]
                        0 <= j < tcalls.len() ==> exists|q: &mut Parser|
                            #![trigger term.ensures((q,), tcalls[j].result)]
                            {
                                &&& q.text() == old(self).text()
                                &&& q.offset() == tcalls[j].start
                                &&& final(q).offset() == tcalls[j].end
                                &&& term.ensures((q,), tcalls[j].result)
                            }
                    &&& forall|j: int|
                        #![trigger acalls[j]]
                        0 <= j < acalls.len() ==> exists|q: &mut Parser|
                            #![trigger atom.ensures((q,), acalls[j].result)]
                            {
                                &&& q.text() == old(self).text()
                                &&& q.offset() == acalls[j].start
                                &&& final(q).offset() == acalls[j].end
                                &&& atom.ensures((q,), acalls[j].result)
                            }
                },
    {
        proof {
            self.lemma_wf();
            reveal_strlit("instance");
            reveal_strlit("where");
            reveal_strlit(":=");
        }
        let ghost t = self.text();
        let ghost i = self.offset() as int;
        let ghost none: Seq<TermCall> = Seq::empty();
        let start = self.position();
        match self.keyword("instance") {
            Ok(()) => {},
            Err(e) => {
                proof { assert(instance_result(*old(self), *self, Err::<Syntax, Box<ParseError>>(e), none, none)); }
                return Err(e);
            },
        }
        self.skip_whitespace();
        proof {
            lemma_trivia_end(t, i + 8);
            self.lemma_wf();
        }
        let ghost j = self.offset() as int;
        let mut children: Vec<Syntax> = Vec::new();
        let ghost mut gname: Syntax = Syntax::Missing;
        let named = match self.peek() {
            Some(c) => c != ':' && crate::lexical::is_id_start(c),
            None => false,
        };
        if named {
            let name = match self.identifier() {
                Ok(n) => n,
                Err(e) => {
                    proof { assert(instance_result(*old(self), *self, Err::<Syntax, Box<ParseError>>(e), none, none)); }
                    return Err(e);
                },
            };
            proof {
                crate::attributes::lemma_no_trivia_at_id_start(t, j);
                lemma_ident_at(t, j);
                self.lemma_wf();
            }
            proof { gname = name; }
            children.push(name);
        }
        let ghost e = self.offset() as int;
        self.skip_whitespace();
        proof {
            lemma_trivia_end(t, e);
            self.lemma_wf();
        }
        let ghost s1 = self.offset() as int;
        match self.expect_char(':') {
            Ok(()) => {},
            Err(err) => {
                proof { assert(instance_result(*old(self), *self, Err::<Syntax, Box<ParseError>>(err), none, none)); }
                return Err(err);
            },
        }
        self.skip_whitespace();
        proof {
            lemma_trivia_end(t, s1 + 1);
            self.lemma_wf();
        }
        let ghost c1 = self.offset() as int;
        let res1 = term(self);
        proof { self.lemma_wf(); }
        let ghost tcalls = seq![TermCall { start: c1, end: self.offset() as int, result: res1 }];
        let ty = match res1 {
            Ok(ty) => ty,
            Err(err) => {
                proof { assert(instance_result(*old(self), *self, Err::<Syntax, Box<ParseError>>(err), tcalls, none)); }
                return Err(err);
            },
        };
        let ghost end1 = self.offset() as int;
        self.skip_whitespace();
        proof {
            lemma_trivia_end(t, end1);
            self.lemma_wf();
        }
        let ghost n = self.offset() as int;
        if !self.peek_keyword("where") {
            if self.peek() == Some(':') {
                self.advance();
                match self.expect_char('=') {
                    Ok(()) => {},
                    Err(err) => {
                        proof { assert(instance_result(*old(self), *self, Err::<Syntax, Box<ParseError>>(err), tcalls, none)); }
                        return Err(err);
                    },
                }
            } else {
                let err = ParseError::expected(":=", self.position());
                proof { assert(instance_result(*old(self), *self, Err::<Syntax, Box<ParseError>>(err), tcalls, none)); }
                return Err(err);
            }
            self.skip_whitespace();
            proof {
                lemma_trivia_end(t, n + 2);
                self.lemma_wf();
            }
        }
        let ghost c2 = self.offset() as int;
        let res2 = atom(self);
        proof { self.lemma_wf(); }
        let ghost acalls = seq![TermCall { start: c2, end: self.offset() as int, result: res2 }];
        let value = match res2 {
            Ok(v) => v,
            Err(err) => {
                proof { assert(instance_result(*old(self), *self, Err::<Syntax, Box<ParseError>>(err), tcalls, acalls)); }
                return Err(err);
            },
        };
        let ghost gty = ty;
        let ghost gvalue = value;
        children.push(ty);
        children.push(value);
        proof {
            if named {
                assert(children@ =~= seq![gname, gty, gvalue]);
            } else {
                assert(children@ =~= seq![gty, gvalue]);
            }
        }
        let range = self.input().range_from(start);
        let node = self.create_node(SyntaxKind::Instance, range, children);
        proof { assert(instance_result(*old(self), *self, Ok::<Syntax, Box<ParseError>>(node), tcalls, acalls)); }
        Ok(node)
    }

    /// Does another item of `kind` follow at the cursor, after `count` of
    /// them (see `item_cont`)?
    pub fn at_item(&self, kind: ItemKind, count: usize) -> (b: bool)
        requires
            self.wf(),
        ensures
            b == item_cont(self.text(), kind, self.offset() as int, count as int),
    {
        proof { self.lemma_wf(); }
        match self.peek() {
            None => false,
            Some(c) => {
                let id = crate::lexical::is_id_start(c);
                if id && self.is_at_command_keyword() {
                    false
                } else {
                    match kind {
                        ItemKind::Field => id,
                        ItemKind::Constructor => c == '|' || (count == 0 && id),
                    }
                }
            },
        }
    }

    /// Items of `kind` at the cursor, one after another while one follows,
    /// each followed by whitespace and comments (see `items_result`; the
    /// calls are ones that `f` can make: the atom parser for fields, the
    /// term parser for constructors).
    #[verifier::spinoff_prover]
    #[verifier::rlimit(80)]
    pub fn parse_items<F>(&mut self, kind: ItemKind, f: F) -> (r: ParserResult<Vec<Syntax>>) where
        F: Fn(&mut Parser) -> ParserResult<Syntax> + Copy,
        requires
            old(self).wf(),
            forall|q: &mut Parser| q.wf() ==> f.requires((q,)),
            forall|q: &mut Parser, x: ParserResult<Syntax>|
                f.ensures((q,), x) ==> {
                    &&& final(q).wf()
                    &&& final(q).text() == q.text()
                    &&& final(q).offset() >= q.offset()
                },
        ensures
            final(self).wf(),
            r is Ok ==> final(self).offset() >= old(self).offset(),
            exists|calls: Seq<TermCall>, steps: Seq<BinderStep>, phase: BinderPhase|
                #![trigger items_result(*old(self), *final(self), r, kind, calls, steps, phase)]
                {
                    &&& items_result(*old(self), *final(self), r, kind, calls, steps, phase)
                    &&& forall|j: int|
                        #![trigger calls[j]]
                        0 <= j < calls.len() ==> exists|q: &mut Parser|
                            #![trigger f.ensures((q,), calls[j].result)]
                            {
                                &&& q.text() == old(self).text()
                                &&& q.offset() == calls[j].start
                                &&& final(q).offset() == calls[j].end
                                &&& f.ensures((q,), calls[j].result)
                            }
                },
    {
        proof { self.lemma_wf(); }
        let ghost t = self.text();
        let ghost k0 = self.offset() as int;
        let mut items: Vec<Syntax> = Vec::new();
        proof {
            assert(items_so_far(t, k0, k0, kind, Seq::empty(), items@));
            assert(flatten(Seq::<BinderStep>::empty()).len() == 0);
        }
        while self.at_item(kind, items.len())
            invariant
                self.wf(),
                t == self.text(),
                t == old(self).text(),
                k0 == old(self).offset(),
                k0 <= self.offset() <= t.len(),
                forall|q: &mut Parser| q.wf() ==> f.requires((q,)),
                forall|q: &mut Parser, x: ParserResult<Syntax>|
                    f.ensures((q,), x) ==> {
                        &&& final(q).wf()
                        &&& final(q).text() == q.text()
                        &&& final(q).offset() >= q.offset()
                    },
                exists|steps: Seq<BinderStep>|
                    #![trigger items_so_far(t, k0, self.offset() as int, kind, steps, items@)]
                    {
                        &&& items_so_far(t, k0, self.offset() as int, kind, steps, items@)
                        &&& forall|j: int|
                            #![trigger flatten(steps)[j]]
                            0 <= j < flatten(steps).len() ==> exists|q: &mut Parser|
                                #![trigger f.ensures((q,), flatten(steps)[j].result)]
                                {
                                    &&& q.text() == t
                                    &&& q.offset() == flatten(steps)[j].start
                                    &&& final(q).offset() == flatten(steps)[j].end
                                    &&& f.ensures((q,), flatten(steps)[j].result)
                                }
                    },
            decreases t.len() - self.offset(),
        {
            proof { self.lemma_wf(); }
            let ghost k = self.offset() as int;
            let ghost v0 = items@;
            let ghost steps0 = choose|steps: Seq<BinderStep>|
                {
                    &&& items_so_far(t, k0, k, kind, steps, v0)
                        &&& forall|j: int|
                            #![trigger flatten(steps)[j]]
                            0 <= j < flatten(steps).len() ==> exists|q: &mut Parser|
                                #![trigger f.ensures((q,), flatten(steps)[j].result)]
                                {
                                    &&& q.text() == t
                                    &&& q.offset() == flatten(steps)[j].start
                                    &&& final(q).offset() == flatten(steps)[j].end
                                    &&& f.ensures((q,), flatten(steps)[j].result)
                                }
                };
            if kind == ItemKind::Constructor && self.peek() == Some('|') {
                self.advance();
                self.skip_whitespace();
                proof { lemma_trivia_end(t, k + 1); }
            }
            proof { self.lemma_wf(); }
            let ghost st = self.offset() as int;
            let ghost p1 = *self;
            let res = match kind {
                ItemKind::Field => {
                    let r = self.structure_field(f);
                    proof {
                        let w = choose|c: Seq<TermCall>|
                            {
                                &&& field_result(p1, *self, r, c)
                                &&& forall|j: int|
                                    #![trigger c[j]]
                                    0 <= j < c.len() ==> exists|q: &mut Parser|
                                        #![trigger f.ensures((q,), c[j].result)]
                                        {
                                            &&& q.text() == t
                                            &&& q.offset() == c[j].start
                                            &&& final(q).offset() == c[j].end
                                            &&& f.ensures((q,), c[j].result)
                                        }
                            };
                        assert(item_rel(kind, p1, *self, r, w));
                    }
                    r
                },
                ItemKind::Constructor => {
                    let r = self.inductive_constructor(f);
                    proof {
                        let w = choose|c: Seq<TermCall>|
                            {
                                &&& constructor_result(p1, *self, r, c)
                                &&& forall|j: int|
                                    #![trigger c[j]]
                                    0 <= j < c.len() ==> exists|q: &mut Parser|
                                        #![trigger f.ensures((q,), c[j].result)]
                                        {
                                            &&& q.text() == t
                                            &&& q.offset() == c[j].start
                                            &&& final(q).offset() == c[j].end
                                            &&& f.ensures((q,), c[j].result)
                                        }
                            };
                        assert(item_rel(kind, p1, *self, r, w));
                    }
                    r
                },
            };
            let ghost q1 = *self;
            let ghost cs = choose|cs: Seq<TermCall>|
                {
                    &&& item_rel(kind, p1, q1, res, cs)
                    &&& forall|j: int|
                        #![trigger cs[j]]
                        0 <= j < cs.len() ==> exists|q: &mut Parser|
                            #![trigger f.ensures((q,), cs[j].result)]
                            {
                                &&& q.text() == t
                                &&& q.offset() == cs[j].start
                                &&& final(q).offset() == cs[j].end
                                &&& f.ensures((q,), cs[j].result)
                            }
                };
            let ghost all = flatten(steps0) + cs;
            proof {
                self.lemma_wf();
                assert forall|j: int| #![trigger all[j]] 0 <= j < all.len() implies exists|q: &mut Parser|
                    #![trigger f.ensures((q,), all[j].result)]
                    {
                        &&& q.text() == t
                        &&& q.offset() == all[j].start
                        &&& final(q).offset() == all[j].end
                        &&& f.ensures((q,), all[j].result)
                    } by {
                    if j < flatten(steps0).len() {
                        assert(all[j] == flatten(steps0)[j]);
                    } else {
                        assert(all[j] == cs[j - flatten(steps0).len()]);
                    }
                }
            }
            let item = match res {
                Ok(x) => x,
                Err(e) => {
                    proof {
                        let phase = BinderPhase::Failed(st, cs, e, self.offset() as int);
                        assert(item_rel(kind, p1, q1, Err::<Syntax, Box<ParseError>>(phase->Failed_2), phase->Failed_1));
                        assert(items_valid(t, k0, kind, steps0, phase));
                        assert(items_result(*old(self), *self, Err::<Vec<Syntax>, Box<ParseError>>(e), kind, all, steps0, phase));
                    }
                    return Err(e);
                },
            };
            let ghost e = self.offset() as int;
            let ghost step = BinderStep { start: st, end: e, result: item, calls: cs };
            items.push(item);
            self.skip_whitespace();
            proof {
                lemma_trivia_end(t, e);
                self.lemma_wf();
                let steps1 = steps0.push(step);
                assert(steps1.drop_last() =~= steps0);
                assert(flatten(steps1) == all);
                assert(item_rel(kind, p1, q1, Ok::<Syntax, Box<ParseError>>(step.result), step.calls));
                assert(item_ok(t, kind, step));
                assert forall|m: int| 0 <= m < steps1.len() implies {
                    &&& #[trigger] steps1[m].start == item_start(t, kind, step_pos(t, k0, steps1, m))
                    &&& item_cont(t, kind, step_pos(t, k0, steps1, m), m)
                    &&& item_ok(t, kind, steps1[m])
                } by {
                    if m < steps0.len() {
                        assert(steps1[m] == steps0[m]);
                        if m > 0 {
                            assert(steps1[m - 1] == steps0[m - 1]);
                        }
                        assert(steps0[m].start == item_start(t, kind, step_pos(t, k0, steps0, m)));
                    } else {
                        if m > 0 {
                            assert(steps1[m - 1] == steps0[m - 1]);
                        }
                    }
                }
                assert forall|m: int| 0 <= m < steps1.len() implies #[trigger] items@[m] == steps1[m].result by {
                    if m < steps0.len() {
                        assert(v0[m] == steps0[m].result);
                    }
                }
                assert(items_so_far(t, k0, self.offset() as int, kind, steps1, items@));
            }
        }
        let ghost kb = self.offset() as int;
        let ghost steps = choose|steps: Seq<BinderStep>|
            {
                &&& items_so_far(t, k0, kb, kind, steps, items@)
                        &&& forall|j: int|
                            #![trigger flatten(steps)[j]]
                            0 <= j < flatten(steps).len() ==> exists|q: &mut Parser|
                                #![trigger f.ensures((q,), flatten(steps)[j].result)]
                                {
                                    &&& q.text() == t
                                    &&& q.offset() == flatten(steps)[j].start
                                    &&& final(q).offset() == flatten(steps)[j].end
                                    &&& f.ensures((q,), flatten(steps)[j].result)
                                }
            };
        let r = Ok(items);
        proof {
            assert(items_result(*old(self), *self, r, kind, flatten(steps), steps, BinderPhase::Ended(kb)));
        }
        r
    }

    /// The end of a declaration at the cursor, after its optional part (see
    /// `body_after`): `children` holds the name, the binder groups and the
    /// optional part read from `i` on; the node of `kind` is built from them,
    /// the items and the deriving clause.
    #[verifier::spinoff_prover]
    #[verifier::rlimit(100)]
    fn decl_items<T, A>(
        &mut self,
        start: SourcePos,
        children: Vec<Syntax>,
        Ghost(i): Ghost<int>,
        Ghost(nm): Ghost<(int, int, Seq<char>)>,
        Ghost(bres): Ghost<Seq<Syntax>>,
        Ghost(mid): Ghost<Seq<Syntax>>,
        kind: SyntaxKind,
        where_required: bool,
        ik: ItemKind,
        der: bool,
        term: T,
        atom: A,
    ) -> (r: ParserResult<Syntax>) where
        T: Fn(&mut Parser) -> ParserResult<Syntax> + Copy,
        A: Fn(&mut Parser) -> ParserResult<Syntax> + Copy,
        requires
            old(self).wf(),
            0 <= i,
            start == pos_at(old(self).text(), i as nat),
            body_children(children@, old(self).text(), nm, bres, mid, Seq::empty(), Seq::empty()),
            forall|q: &mut Parser| q.wf() ==> term.requires((q,)),
            forall|q: &mut Parser, x: ParserResult<Syntax>|
                term.ensures((q,), x) ==> {
                    &&& final(q).wf()
                    &&& final(q).text() == q.text()
                    &&& final(q).offset() >= q.offset()
                },
            forall|q: &mut Parser| q.wf() ==> atom.requires((q,)),
            forall|q: &mut Parser, x: ParserResult<Syntax>|
                atom.ensures((q,), x) ==> {
                    &&& final(q).wf()
                    &&& final(q).text() == q.text()
                    &&& final(q).offset() >= q.offset()
                },
        ensures
            final(self).wf(),
            final(self).text() == old(self).text(),
            exists|tc: Seq<TermCall>, ac: Seq<TermCall>, isteps: Seq<BinderStep>, iphase: BinderPhase|
                #![trigger body_after(old(self).text(), i, nm, bres, mid, old(self).offset() as int, tc, ac, *final(self), r, isteps, iphase, kind, where_required, ik, der)]
                {
                    &&& body_after(old(self).text(), i, nm, bres, mid, old(self).offset() as int, tc, ac, *final(self), r, isteps, iphase, kind, where_required, ik, der)
                    &&& forall|j: int|
                        #![trigger tc[j]]
                        0 <= j < tc.len() ==> exists|q: &mut Parser|
                            #![trigger term.ensures((q,), tc[j].result)]
                            {
                                &&& q.text() == old(self).text()
                                &&& q.offset() == tc[j].start
                                &&& final(q).offset() == tc[j].end
                                &&& term.ensures((q,), tc[j].result)
                            }
                    &&& forall|j: int|
                        #![trigger ac[j]]
                        0 <= j < ac.len() ==> exists|q: &mut Parser|
                            #![trigger atom.ensures((q,), ac[j].result)]
                            {
                                &&& q.text() == old(self).text()
                                &&& q.offset() == ac[j].start
                                &&& final(q).offset() == ac[j].end
                                &&& atom.ensures((q,), ac[j].result)
                            }
                },
    {
        proof {
            self.lemma_wf();
            reveal(body_after);
            reveal_strlit("where");
            reveal_strlit("deriving");
            reveal_strlit("keyword '");
            reveal_strlit("'");
            reveal_strlit("keyword 'where'");
        }
        let ghost t = self.text();
        let ghost w = self.offset() as int;
        let ghost none: Seq<TermCall> = Seq::empty();
        let ghost nosteps: Seq<BinderStep> = Seq::empty();
        let ghost anyphase = BinderPhase::Ended(0);
        let mut children = children;
        let has_where = self.peek_keyword("where");
        if !has_where && where_required {
            let r = self.keyword("where");
            proof { assert("keyword '"@ + "where"@ + "'"@ =~= "keyword 'where'"@); }
            let e = match r {
                Err(e) => e,
                Ok(()) => {
                    proof { assert(false); }
                    return Err(ParseError::expected("keyword 'where'", self.position()));
                },
            };
            proof {
                assert(body_after(t, i, nm, bres, mid, w, none, none, *self, Err::<Syntax, Box<ParseError>>(e), nosteps, anyphase, kind, where_required, ik, der));
            }
            return Err(e);
        }
        if !has_where {
            let ghost c0 = children@;
            let ghost p0 = *self;
            let r = self.decl_finish(start, children, Ghost(i), kind, der);
            proof {
                assert(step_results(nosteps) =~= Seq::<Syntax>::empty());
                lemma_finish_tail(p0, *self, r, i, kind, c0, der, nm, bres, mid, step_results(nosteps));
                assert(body_after(t, i, nm, bres, mid, w, none, none, *self, r, nosteps, anyphase, kind, where_required, ik, der));
            }
            return r;
        }
        let _ = self.keyword("where");
        self.skip_whitespace();
        proof {
            lemma_trivia_end(t, w + 5);
            self.lemma_wf();
        }
        let ghost p1 = *self;
        match ik {
            ItemKind::Field => {
                let res = self.parse_items(ik, atom);
                proof { self.lemma_wf(); }
                let ghost q1 = *self;
                let ghost (ic, isteps, iphase) = choose|c: Seq<TermCall>, s: Seq<BinderStep>, ph: BinderPhase|
                    {
                        &&& items_result(p1, q1, res, ik, c, s, ph)
                        &&& forall|j: int|
                            #![trigger c[j]]
                            0 <= j < c.len() ==> exists|q: &mut Parser|
                                #![trigger atom.ensures((q,), c[j].result)]
                                {
                                    &&& q.text() == t
                                    &&& q.offset() == c[j].start
                                    &&& final(q).offset() == c[j].end
                                    &&& atom.ensures((q,), c[j].result)
                                }
                    };
                let mut items = match res {
                    Ok(v) => v,
                    Err(e) => {
                        proof {
                            assert(body_after(t, i, nm, bres, mid, w, none, ic, *self, Err::<Syntax, Box<ParseError>>(e), isteps, iphase, kind, where_required, ik, der));
                        }
                        return Err(e);
                    },
                };
                let ghost c0 = children@;
                let ghost vi = items@;
                children.append(&mut items);
                let ghost c1 = children@;
                let ghost p0 = *self;
                let r = self.decl_finish(start, children, Ghost(i), kind, der);
                proof {
                    Self::lemma_items_children(c0, c1, vi, t, nm, bres, mid, isteps);
                    lemma_finish_tail(p0, *self, r, i, kind, c1, der, nm, bres, mid, step_results(isteps));
                    assert(body_after(t, i, nm, bres, mid, w, none, ic, *self, r, isteps, iphase, kind, where_required, ik, der));
                }
                r
            },
            ItemKind::Constructor => {
                let res = self.parse_items(ik, term);
                proof { self.lemma_wf(); }
                let ghost q1 = *self;
                let ghost (ic, isteps, iphase) = choose|c: Seq<TermCall>, s: Seq<BinderStep>, ph: BinderPhase|
                    {
                        &&& items_result(p1, q1, res, ik, c, s, ph)
                        &&& forall|j: int|
                            #![trigger c[j]]
                            0 <= j < c.len() ==> exists|q: &mut Parser|
                                #![trigger term.ensures((q,), c[j].result)]
                                {
                                    &&& q.text() == t
                                    &&& q.offset() == c[j].start
                                    &&& final(q).offset() == c[j].end
                                    &&& term.ensures((q,), c[j].result)
                                }
                    };
                let mut items = match res {
                    Ok(v) => v,
                    Err(e) => {
                        proof {
                            assert(body_after(t, i, nm, bres, mid, w, ic, none, *self, Err::<Syntax, Box<ParseError>>(e), isteps, iphase, kind, where_required, ik, der));
                        }
                        return Err(e);
                    },
                };
                let ghost c0 = children@;
                let ghost vi = items@;
                children.append(&mut items);
                let ghost c1 = children@;
                let ghost p0 = *self;
                let r = self.decl_finish(start, children, Ghost(i), kind, der);
                proof {
                    Self::lemma_items_children(c0, c1, vi, t, nm, bres, mid, isteps);
                    lemma_finish_tail(p0, *self, r, i, kind, c1, der, nm, bres, mid, step_results(isteps));
                    assert(body_after(t, i, nm, bres, mid, w, ic, none, *self, r, isteps, iphase, kind, where_required, ik, der));
                }
                r
            },
        }
    }

    /// The children with the items appended (see `body_children`).
    proof fn lemma_items_children(
        c0: Seq<Syntax>,
        c1: Seq<Syntax>,
        vi: Seq<Syntax>,
        t: Seq<char>,
        nm: (int, int, Seq<char>),
        bres: Seq<Syntax>,
        mid: Seq<Syntax>,
        isteps: Seq<BinderStep>,
    )
        requires
            body_children(c0, t, nm, bres, mid, Seq::empty(), Seq::empty()),
            c1 == c0 + vi,
            vi.len() == isteps.len(),
            forall|m: int| 0 <= m < isteps.len() ==> #[trigger] vi[m] == isteps[m].result,
        ensures
            body_children(c1, t, nm, bres, mid, step_results(isteps), Seq::empty()),
    {
        assert(vi =~= step_results(isteps));
        assert(c1.drop_first() =~= c0.drop_first() + vi);
        assert(bres + mid + Seq::<Syntax>::empty() + Seq::<Syntax>::empty() =~= bres + mid);
        assert(bres + mid + vi + Seq::<Syntax>::empty() =~= bres + mid + vi);
        assert(c1[0] == c0[0]);
    }

    /// The deriving clause, where `der` allows one and it stands at the
    /// cursor, then the node of `kind` spanning from `i`, with `children`
    /// and the deriving clause (see `finish_result`).
    #[verifier::spinoff_prover]
    fn decl_finish(&mut self, start: SourcePos, children: Vec<Syntax>, Ghost(i): Ghost<int>, kind: SyntaxKind, der: bool) -> (r:
        ParserResult<Syntax>)
        requires
            old(self).wf(),
            0 <= i,
            start == pos_at(old(self).text(), i as nat),
        ensures
            final(self).wf(),
            finish_result(*old(self), *final(self), r, i, kind, children@, der),
    {
        proof {
            self.lemma_wf();
            reveal_strlit("deriving");
        }
        let ghost t = self.text();
        let ghost kf = self.offset() as int;
        let mut children = children;
        if der && self.peek_keyword("deriving") {
            let ghost p2 = *self;
            let d = self.deriving_clause();
            let ghost q2 = *self;
            let d = match d {
                Ok(d) => d,
                Err(e) => {
                    proof {
                        assert(deriving_result(p2, *self, Err::<Syntax, Box<ParseError>>(e)));
                    }
                    return Err(e);
                },
            };
            let ghost c0 = children@;
            let ghost gd = d;
            children.push(d);
            let range = self.input().range_from(start);
            let node = self.create_node(kind, range, children);
            proof {
                assert(deriving_result(p2, *self, Ok::<Syntax, Box<ParseError>>(gd)));
                assert(finish_result(*old(self), *self, Ok::<Syntax, Box<ParseError>>(node), i, kind, c0, der));
            }
            return Ok(node);
        }
        let range = self.input().range_from(start);
        let node = self.create_node(kind, range, children);
        Ok(node)
    }

    /// The rest of a declaration after its binder groups, at the cursor
    /// (see `body_rest`): `children` holds the name and binder groups read
    /// from `i` on.
    #[verifier::spinoff_prover]
    #[verifier::rlimit(100)]
    fn decl_rest<T, A>(
        &mut self,
        start: SourcePos,
        children: Vec<Syntax>,
        Ghost(i): Ghost<int>,
        Ghost(nm): Ghost<(int, int, Seq<char>)>,
        Ghost(bres): Ghost<Seq<Syntax>>,
        kind: SyntaxKind,
        ok: OptKind,
        where_required: bool,
        ik: ItemKind,
        der: bool,
        term: T,
        atom: A,
    ) -> (r: ParserResult<Syntax>) where
        T: Fn(&mut Parser) -> ParserResult<Syntax> + Copy,
        A: Fn(&mut Parser) -> ParserResult<Syntax> + Copy,
        requires
            old(self).wf(),
            0 <= i,
            start == pos_at(old(self).text(), i as nat),
            body_children(children@, old(self).text(), nm, bres, Seq::empty(), Seq::empty(), Seq::empty()),
            forall|q: &mut Parser| q.wf() ==> term.requires((q,)),
            forall|q: &mut Parser, x: ParserResult<Syntax>|
                term.ensures((q,), x) ==> {
                    &&& final(q).wf()
                    &&& final(q).text() == q.text()
                    &&& final(q).offset() >= q.offset()
                },
            forall|q: &mut Parser| q.wf() ==> atom.requires((q,)),
            forall|q: &mut Parser, x: ParserResult<Syntax>|
                atom.ensures((q,), x) ==> {
                    &&& final(q).wf()
                    &&& final(q).text() == q.text()
                    &&& final(q).offset() >= q.offset()
                },
        ensures
            final(self).wf(),
            final(self).text() == old(self).text(),
            exists|tc: Seq<TermCall>, ac: Seq<TermCall>, isteps: Seq<BinderStep>, iphase: BinderPhase|
                #![trigger body_rest(old(self).text(), i, nm, bres, old(self).offset() as int, tc, ac, *final(self), r, isteps, iphase, kind, ok, where_required, ik, der)]
                {
                    &&& body_rest(old(self).text(), i, nm, bres, old(self).offset() as int, tc, ac, *final(self), r, isteps, iphase, kind, ok, where_required, ik, der)
                    &&& forall|j: int|
                        #![trigger tc[j]]
                        0 <= j < tc.len() ==> exists|q: &mut Parser|
                            #![trigger term.ensures((q,), tc[j].result)]
                            {
                                &&& q.text() == old(self).text()
                                &&& q.offset() == tc[j].start
                                &&& final(q).offset() == tc[j].end
                                &&& term.ensures((q,), tc[j].result)
                            }
                    &&& forall|j: int|
                        #![trigger ac[j]]
                        0 <= j < ac.len() ==> exists|q: &mut Parser|
                            #![trigger atom.ensures((q,), ac[j].result)]
                            {
                                &&& q.text() == old(self).text()
                                &&& q.offset() == ac[j].start
                                &&& final(q).offset() == ac[j].end
                                &&& atom.ensures((q,), ac[j].result)
                            }
                },
    {
        proof {
            self.lemma_wf();
            reveal_strlit("extends");
        }
        let ghost t = self.text();
        let ghost kb = self.offset() as int;
        let ghost none: Seq<TermCall> = Seq::empty();
        let ghost nosteps: Seq<BinderStep> = Seq::empty();
        let ghost anyphase = BinderPhase::Ended(0);
        let mut children = children;
        let present = match ok {
            OptKind::Colon => self.peek() == Some(':'),
            _ => self.peek_keyword("extends"),
        };
        if !present {
            self.skip_whitespace();
            proof {
                lemma_trivia_end(t, kb);
                self.lemma_wf();
            }
            let ghost p0 = *self;
            let ghost mid0: Seq<Syntax> = Seq::empty();
            let r = self.decl_items(start, children, Ghost(i), Ghost(nm), Ghost(bres), Ghost(mid0), kind, where_required, ik, der, term, atom);
            proof {
                let (tc, ac, isteps, iphase) = choose|tc: Seq<TermCall>, ac: Seq<TermCall>, isteps: Seq<BinderStep>, iphase: BinderPhase|
                    {
                        &&& body_after(t, i, nm, bres, Seq::empty(), p0.offset() as int, tc, ac, *self, r, isteps, iphase, kind, where_required, ik, der)
                        &&& forall|j: int|
                            #![trigger tc[j]]
                            0 <= j < tc.len() ==> exists|q: &mut Parser|
                                #![trigger term.ensures((q,), tc[j].result)]
                                {
                                    &&& q.text() == t
                                    &&& q.offset() == tc[j].start
                                    &&& final(q).offset() == tc[j].end
                                    &&& term.ensures((q,), tc[j].result)
                                }
                        &&& forall|j: int|
                            #![trigger ac[j]]
                            0 <= j < ac.len() ==> exists|q: &mut Parser|
                                #![trigger atom.ensures((q,), ac[j].result)]
                                {
                                    &&& q.text() == t
                                    &&& q.offset() == ac[j].start
                                    &&& final(q).offset() == ac[j].end
                                    &&& atom.ensures((q,), ac[j].result)
                                }
                    };
                lemma_rest_absent(t, i, nm, bres, kb, tc, ac, *self, r, isteps, iphase, kind, ok, where_required, ik, der);
            }
            return r;
        }
        match ok {
            OptKind::Colon => {
                self.advance();
            },
            _ => {
                let _ = self.keyword("extends");
            },
        }
        self.skip_whitespace();
        proof {
            lemma_trivia_end(t, if ok == OptKind::Colon { kb + 1 } else { kb + 7 });
            self.lemma_wf();
        }
        let ghost c1 = self.offset() as int;
        let uses_atom = match ok {
            OptKind::ExtendsAtom => true,
            _ => false,
        };
        let res = if uses_atom {
            atom(self)
        } else {
            term(self)
        };
        proof { self.lemma_wf(); }
        let ghost call = TermCall { start: c1, end: self.offset() as int, result: res };
        let ghost oc = seq![call];
        let x = match res {
            Ok(x) => x,
            Err(e) => {
                proof {
                    lemma_rest_failed(t, i, nm, bres, kb, call, *self, e, nosteps, anyphase, kind, ok, where_required, ik, der);
                    assert(oc == seq![call]);
                    if uses_atom {
                        assert(body_rest(t, i, nm, bres, kb, none, oc, *self, Err::<Syntax, Box<ParseError>>(e), nosteps, anyphase, kind, ok, where_required, ik, der));
                    } else {
                        assert(body_rest(t, i, nm, bres, kb, oc, none, *self, Err::<Syntax, Box<ParseError>>(e), nosteps, anyphase, kind, ok, where_required, ik, der));
                    }
                }
                return Err(e);
            },
        };
        let ghost gx = x;
        let ghost c0 = children@;
        children.push(x);
        let ghost after = self.offset() as int;
        self.skip_whitespace();
        proof {
            lemma_trivia_end(t, after);
            self.lemma_wf();
            let c1s = c0.push(gx);
            assert(c1s.drop_first() =~= c0.drop_first().push(gx));
            assert(bres + Seq::<Syntax>::empty() + Seq::<Syntax>::empty() + Seq::<Syntax>::empty() =~= bres);
            assert(bres + seq![gx] + Seq::<Syntax>::empty() + Seq::<Syntax>::empty() =~= bres.push(gx));
            assert(c1s[0] == c0[0]);
            assert(body_children(c1s, t, nm, bres, seq![gx], Seq::empty(), Seq::empty()));
        }
        let ghost p0 = *self;
        let ghost mid1 = seq![gx];
        let r = self.decl_items(start, children, Ghost(i), Ghost(nm), Ghost(bres), Ghost(mid1), kind, where_required, ik, der, term, atom);
        proof {
            let (tc, ac, isteps, iphase) = choose|tc: Seq<TermCall>, ac: Seq<TermCall>, isteps: Seq<BinderStep>, iphase: BinderPhase|
                {
                    &&& body_after(t, i, nm, bres, seq![gx], p0.offset() as int, tc, ac, *self, r, isteps, iphase, kind, where_required, ik, der)
                    &&& forall|j: int|
                        #![trigger tc[j]]
                        0 <= j < tc.len() ==> exists|q: &mut Parser|
                            #![trigger term.ensures((q,), tc[j].result)]
                            {
                                &&& q.text() == t
                                &&& q.offset() == tc[j].start
                                &&& final(q).offset() == tc[j].end
                                &&& term.ensures((q,), tc[j].result)
                            }
                    &&& forall|j: int|
                        #![trigger ac[j]]
                        0 <= j < ac.len() ==> exists|q: &mut Parser|
                            #![trigger atom.ensures((q,), ac[j].result)]
                            {
                                &&& q.text() == t
                                &&& q.offset() == ac[j].start
                                &&& final(q).offset() == ac[j].end
                                &&& atom.ensures((q,), ac[j].result)
                            }
                };
            if uses_atom {
                let ac1 = oc + ac;
                lemma_rest_present(t, i, nm, bres, kb, call, gx, tc, ac, *self, r, isteps, iphase, kind, ok, where_required, ik, der);
                assert forall|j: int| #![trigger ac1[j]] 0 <= j < ac1.len() implies exists|q: &mut Parser|
                    #![trigger atom.ensures((q,), ac1[j].result)]
                    {
                        &&& q.text() == t
                        &&& q.offset() == ac1[j].start
                        &&& final(q).offset() == ac1[j].end
                        &&& atom.ensures((q,), ac1[j].result)
                    } by {
                    if j > 0 {
                        assert(ac1[j] == ac[j - 1]);
                    }
                }
                assert(body_rest(t, i, nm, bres, kb, tc, ac1, *self, r, isteps, iphase, kind, ok, where_required, ik, der));
            } else {
                let tc1 = oc + tc;
                lemma_rest_present(t, i, nm, bres, kb, call, gx, tc, ac, *self, r, isteps, iphase, kind, ok, where_required, ik, der);
                assert forall|j: int| #![trigger tc1[j]] 0 <= j < tc1.len() implies exists|q: &mut Parser|
                    #![trigger term.ensures((q,), tc1[j].result)]
                    {
                        &&& q.text() == t
                        &&& q.offset() == tc1[j].start
                        &&& final(q).offset() == tc1[j].end
                        &&& term.ensures((q,), tc1[j].result)
                    } by {
                    if j > 0 {
                        assert(tc1[j] == tc[j - 1]);
                    }
                }
                assert(body_rest(t, i, nm, bres, kb, tc1, ac, *self, r, isteps, iphase, kind, ok, where_required, ik, der));
            }
        }
        r
    }

    /// A declaration `kw name binders [opt] [where items] [deriving]` (see
    /// `body_decl_result`; the calls are ones that `term` and `atom` can
    /// make).
    #[verifier::spinoff_prover]
    #[verifier::rlimit(100)]
    fn body_decl<T, A>(
        &mut self,
        kw: &str,
        kind: SyntaxKind,
        ok: OptKind,
        where_required: bool,
        ik: ItemKind,
        der: bool,
        term: T,
        atom: A,
    ) -> (r: ParserResult<Syntax>) where
        T: Fn(&mut Parser) -> ParserResult<Syntax> + Copy,
        A: Fn(&mut Parser) -> ParserResult<Syntax> + Copy,
        requires
            old(self).wf(),
            forall|q: &mut Parser| q.wf() ==> term.requires((q,)),
            forall|q: &mut Parser, x: ParserResult<Syntax>|
                term.ensures((q,), x) ==> {
                    &&& final(q).wf()
                    &&& final(q).text() == q.text()
                    &&& final(q).offset() >= q.offset()
                },
            forall|q: &mut Parser| q.wf() ==> atom.requires((q,)),
            forall|q: &mut Parser, x: ParserResult<Syntax>|
                atom.ensures((q,), x) ==> {
                    &&& final(q).wf()
                    &&& final(q).text() == q.text()
                    &&& final(q).offset() >= q.offset()
                },
        ensures
            final(self).wf(),
            exists|
                tcalls: Seq<TermCall>,
                acalls: Seq<TermCall>,
                bsteps: Seq<BinderStep>,
                bphase: BinderPhase,
                isteps: Seq<BinderStep>,
                iphase: BinderPhase,
            |
                #![trigger body_decl_result(*old(self), *final(self), r, tcalls, acalls, bsteps, bphase, isteps, iphase, kw@, kind, ok, where_required, ik, der)]
                {
                    &&& body_decl_result(*old(self), *final(self), r, tcalls, acalls, bsteps, bphase, isteps, iphase, kw@, kind, ok, where_required, ik, der)
                    &&& forall|j: int|
                        #![trigger tcalls[j]]
                        0 <= j < tcalls.len() ==> exists|q: &mut Parser|
                            #![trigger term.ensures((q,), tcalls[j].result)]
                            {
                                &&& q.text() == old(self).text()
                                &&& q.offset() == tcalls[j].start
                                &&& final(q).offset() == tcalls[j].end
                                &&& term.ensures((q,), tcalls[j].result)
                            }
                    &&& forall|j: int|
                        #![trigger acalls[j]]
                        0 <= j < acalls.len() ==> exists|q: &mut Parser|
                            #![trigger atom.ensures((q,), acalls[j].result)]
                            {
                                &&& q.text() == old(self).text()
                                &&& q.offset() == acalls[j].start
                                &&& final(q).offset() == acalls[j].end
                                &&& atom.ensures((q,), acalls[j].result)
                            }
                },
    {
        proof { self.lemma_wf(); }
        let ghost t = self.text();
        let ghost i = self.offset() as int;
        let ghost none: Seq<TermCall> = Seq::empty();
        let ghost nosteps: Seq<BinderStep> = Seq::empty();
        let ghost anyphase = BinderPhase::Ended(0);
        let start = self.position();
        match self.keyword(kw) {
            Ok(()) => {},
            Err(e) => {
                proof {
                    assert(body_decl_result(*old(self), *self, Err::<Syntax, Box<ParseError>>(e), none, none, nosteps, anyphase, nosteps, anyphase, kw@, kind, ok, where_required, ik, der));
                }
                return Err(e);
            },
        }
        self.skip_whitespace();
        proof {
            lemma_trivia_end(t, i + kw@.len());
            self.lemma_wf();
        }
        let ghost j = self.offset() as int;
        let name = match self.identifier() {
            Ok(n) => n,
            Err(e) => {
                proof {
                    assert(body_decl_result(*old(self), *self, Err::<Syntax, Box<ParseError>>(e), none, none, nosteps, anyphase, nosteps, anyphase, kw@, kind, ok, where_required, ik, der));
                }
                return Err(e);
            },
        };
        proof {
            lemma_ident_at(t, j);
            self.lemma_wf();
        }
        let ghost e = self.offset() as int;
        let ghost nm: (int, int, Seq<char>) = match ident_lex(t, j) {
            Lex::Token(v, e) => (j, e, v),
            _ => (0, 0, Seq::empty()),
        };
        let mut children: Vec<Syntax> = Vec::new();
        children.push(name);
        self.skip_whitespace();
        proof {
            lemma_trivia_end(t, e);
            self.lemma_wf();
        }
        let ghost p1 = *self;
        let binders_res = self.parse_binders(term);
        let ghost (bcalls, bsteps, bphase) = choose|calls: Seq<TermCall>, steps: Seq<BinderStep>, phase: BinderPhase|
            {
                &&& binders_result(p1, *self, binders_res, calls, steps, phase)
                &&& forall|jj: int|
                    #![trigger calls[jj]]
                    0 <= jj < calls.len() ==> exists|q: &mut Parser|
                        #![trigger term.ensures((q,), calls[jj].result)]
                        {
                            &&& q.text() == t
                            &&& q.offset() == calls[jj].start
                            &&& final(q).offset() == calls[jj].end
                            &&& term.ensures((q,), calls[jj].result)
                        }
            };
        proof {
            self.lemma_wf();
            assert(bcalls.subrange(0, flatten(bsteps).len() as int) =~= flatten(bsteps));
        }
        let mut binders = match binders_res {
            Ok(v) => v,
            Err(err) => {
                proof {
                    assert(body_decl_result(*old(self), *self, Err::<Syntax, Box<ParseError>>(err), bcalls, none, bsteps, bphase, nosteps, anyphase, kw@, kind, ok, where_required, ik, der));
                }
                return Err(err);
            },
        };
        let ghost c0 = children@;
        let ghost vb = binders@;
        children.append(&mut binders);
        proof {
            let cs = children@;
            assert(cs =~= c0 + vb);
            assert(cs.drop_first() =~= vb);
            assert(vb + Seq::<Syntax>::empty() + Seq::<Syntax>::empty() + Seq::<Syntax>::empty() =~= vb);
            assert(body_children(cs, t, nm, vb, Seq::empty(), Seq::empty(), Seq::empty()));
            assert(vb =~= step_results(bsteps));
        }
        let ghost kb = self.offset() as int;
        let r = self.decl_rest(start, children, Ghost(i), Ghost(nm), Ghost(vb), kind, ok, where_required, ik, der, term, atom);
        proof {
            let (tc, ac, isteps, iphase) = choose|tc: Seq<TermCall>, ac: Seq<TermCall>, isteps: Seq<BinderStep>, iphase: BinderPhase|
                {
                    &&& body_rest(t, i, nm, vb, kb, tc, ac, *self, r, isteps, iphase, kind, ok, where_required, ik, der)
                    &&& forall|jj: int|
                        #![trigger tc[jj]]
                        0 <= jj < tc.len() ==> exists|q: &mut Parser|
                            #![trigger term.ensures((q,), tc[jj].result)]
                            {
                                &&& q.text() == t
                                &&& q.offset() == tc[jj].start
                                &&& final(q).offset() == tc[jj].end
                                &&& term.ensures((q,), tc[jj].result)
                            }
                    &&& forall|jj: int|
                        #![trigger ac[jj]]
                        0 <= jj < ac.len() ==> exists|q: &mut Parser|
                            #![trigger atom.ensures((q,), ac[jj].result)]
                            {
                                &&& q.text() == t
                                &&& q.offset() == ac[jj].start
                                &&& final(q).offset() == ac[jj].end
                                &&& atom.ensures((q,), ac[jj].result)
                            }
                };
            let tcalls = bcalls + tc;
            assert(tcalls.subrange(0, flatten(bsteps).len() as int) =~= flatten(bsteps));
            assert(tcalls.subrange(flatten(bsteps).len() as int, tcalls.len() as int) =~= tc);
            assert forall|jj: int| #![trigger tcalls[jj]] 0 <= jj < tcalls.len() implies exists|q: &mut Parser|
                #![trigger term.ensures((q,), tcalls[jj].result)]
                {
                    &&& q.text() == t
                    &&& q.offset() == tcalls[jj].start
                    &&& final(q).offset() == tcalls[jj].end
                    &&& term.ensures((q,), tcalls[jj].result)
                } by {
                if jj < bcalls.len() {
                    assert(tcalls[jj] == bcalls[jj]);
                } else {
                    assert(tcalls[jj] == tc[jj - bcalls.len()]);
                }
            }
            assert(body_decl_result(*old(self), *self, r, tcalls, ac, bsteps, bphase, isteps, iphase, kw@, kind, ok, where_required, ik, der));
        }
        r
    }

    /// `structure Name binders [extends Parent] where fields [deriving ...]`:
    /// the parent is read by `atom`, the type of each field by `atom`, the
    /// binder groups' types by `term` (see `body_decl_result`).
    pub fn structure_command<T, A>(&mut self, term: T, atom: A) -> (r: ParserResult<Syntax>) where
        T: Fn(&mut Parser) -> ParserResult<Syntax> + Copy,
        A: Fn(&mut Parser) -> ParserResult<Syntax> + Copy,
        requires
            old(self).wf(),
            forall|q: &mut Parser| q.wf() ==> term.requires((q,)),
            forall|q: &mut Parser, x: ParserResult<Syntax>|
                term.ensures((q,), x) ==> {
                    &&& final(q).wf()
                    &&& final(q).text() == q.text()
                    &&& final(q).offset() >= q.offset()
                },
            forall|q: &mut Parser| q.wf() ==> atom.requires((q,)),
            forall|q: &mut Parser, x: ParserResult<Syntax>|
                atom.ensures((q,), x) ==> {
                    &&& final(q).wf()
                    &&& final(q).text() == q.text()
                    &&& final(q).offset() >= q.offset()
                },
        ensures
            final(self).wf(),
            exists|
                tcalls: Seq<TermCall>,
                acalls: Seq<TermCall>,
                bsteps: Seq<BinderStep>,
                bphase: BinderPhase,
                isteps: Seq<BinderStep>,
                iphase: BinderPhase,
            |
                #![trigger body_decl_result(*old(self), *final(self), r, tcalls, acalls, bsteps, bphase, isteps, iphase, "structure"@, SyntaxKind::Structure, OptKind::ExtendsAtom, true, ItemKind::Field, true)]
                {
                    &&& body_decl_result(*old(self), *final(self), r, tcalls, acalls, bsteps, bphase, isteps, iphase, "structure"@, SyntaxKind::Structure, OptKind::ExtendsAtom, true, ItemKind::Field, true)
                    &&& forall|j: int|
                        #![trigger tcalls[j]]
                        0 <= j < tcalls.len() ==> exists|q: &mut Parser|
                            #![trigger term.ensures((q,), tcalls[j].result)]
                            {
                                &&& q.text() == old(self).text()
                                &&& q.offset() == tcalls[j].start
                                &&& final(q).offset() == tcalls[j].end
                                &&& term.ensures((q,), tcalls[j].result)
                            }
                    &&& forall|j: int|
                        #![trigger acalls[j]]
                        0 <= j < acalls.len() ==> exists|q: &mut Parser|
                            #![trigger atom.ensures((q,), acalls[j].result)]
                            {
                                &&& q.text() == old(self).text()
                                &&& q.offset() == acalls[j].start
                                &&& final(q).offset() == acalls[j].end
                                &&& atom.ensures((q,), acalls[j].result)
                            }
                },
    {
        self.body_decl("structure", SyntaxKind::Structure, OptKind::ExtendsAtom, true, ItemKind::Field, true, term, atom)
    }

    /// `class Name binders [extends Parent] [where fields]`: the parent is
    /// read by `term`, the type of each field by `atom` (see
    /// `body_decl_result`).
    pub fn class_command<T, A>(&mut self, term: T, atom: A) -> (r: ParserResult<Syntax>) where
        T: Fn(&mut Parser) -> ParserResult<Syntax> + Copy,
        A: Fn(&mut Parser) -> ParserResult<Syntax> + Copy,
        requires
            old(self).wf(),
            forall|q: &mut Parser| q.wf() ==> term.requires((q,)),
            forall|q: &mut Parser, x: ParserResult<Syntax>|
                term.ensures((q,), x) ==> {
                    &&& final(q).wf()
                    &&& final(q).text() == q.text()
                    &&& final(q).offset() >= q.offset()
                },
            forall|q: &mut Parser| q.wf() ==> atom.requires((q,)),
            forall|q: &mut Parser, x: ParserResult<Syntax>|
                atom.ensures((q,), x) ==> {
                    &&& final(q).wf()
                    &&& final(q).text() == q.text()
                    &&& final(q).offset() >= q.offset()
                },
        ensures
            final(self).wf(),
            exists|
                tcalls: Seq<TermCall>,
                acalls: Seq<TermCall>,
                bsteps: Seq<BinderStep>,
                bphase: BinderPhase,
                isteps: Seq<BinderStep>,
                iphase: BinderPhase,
            |
                #![trigger body_decl_result(*old(self), *final(self), r, tcalls, acalls, bsteps, bphase, isteps, iphase, "class"@, SyntaxKind::Class, OptKind::ExtendsTerm, false, ItemKind::Field, false)]
                {
                    &&& body_decl_result(*old(self), *final(self), r, tcalls, acalls, bsteps, bphase, isteps, iphase, "class"@, SyntaxKind::Class, OptKind::ExtendsTerm, false, ItemKind::Field, false)
                    &&& forall|j: int|
                        #![trigger tcalls[j]]
                        0 <= j < tcalls.len() ==> exists|q: &mut Parser|
                            #![trigger term.ensures((q,), tcalls[j].result)]
                            {
                                &&& q.text() == old(self).text()
                                &&& q.offset() == tcalls[j].start
                                &&& final(q).offset() == tcalls[j].end
                                &&& term.ensures((q,), tcalls[j].result)
                            }
                    &&& forall|j: int|
                        #![trigger acalls[j]]
                        0 <= j < acalls.len() ==> exists|q: &mut Parser|
                            #![trigger atom.ensures((q,), acalls[j].result)]
                            {
                                &&& q.text() == old(self).text()
                                &&& q.offset() == acalls[j].start
                                &&& final(q).offset() == acalls[j].end
                                &&& atom.ensures((q,), acalls[j].result)
                            }
                },
    {
        self.body_decl("class", SyntaxKind::Class, OptKind::ExtendsTerm, false, ItemKind::Field, false, term, atom)
    }

    /// `inductive Name binders [: type] [where constructors] [deriving ...]`:
    /// every term, the constructors' types among them, is read by `term`
    /// (see `body_decl_result`).
    pub fn inductive_command<F>(&mut self, term: F) -> (r: ParserResult<Syntax>) where
        F: Fn(&mut Parser) -> ParserResult<Syntax> + Copy,
        requires
            old(self).wf(),
            forall|q: &mut Parser| q.wf() ==> term.requires((q,)),
            forall|q: &mut Parser, x: ParserResult<Syntax>|
                term.ensures((q,), x) ==> {
                    &&& final(q).wf()
                    &&& final(q).text() == q.text()
                    &&& final(q).offset() >= q.offset()
                },
        ensures
            final(self).wf(),
            exists|
                tcalls: Seq<TermCall>,
                acalls: Seq<TermCall>,
                bsteps: Seq<BinderStep>,
                bphase: BinderPhase,
                isteps: Seq<BinderStep>,
                iphase: BinderPhase,
            |
                #![trigger body_decl_result(*old(self), *final(self), r, tcalls, acalls, bsteps, bphase, isteps, iphase, "inductive"@, SyntaxKind::Inductive, OptKind::Colon, false, ItemKind::Constructor, true)]
                {
                    &&& body_decl_result(*old(self), *final(self), r, tcalls, acalls, bsteps, bphase, isteps, iphase, "inductive"@, SyntaxKind::Inductive, OptKind::Colon, false, ItemKind::Constructor, true)
                    &&& forall|j: int|
                        #![trigger tcalls[j]]
                        0 <= j < tcalls.len() ==> exists|q: &mut Parser|
                            #![trigger term.ensures((q,), tcalls[j].result)]
                            {
                                &&& q.text() == old(self).text()
                                &&& q.offset() == tcalls[j].start
                                &&& final(q).offset() == tcalls[j].end
                                &&& term.ensures((q,), tcalls[j].result)
                            }
                    &&& forall|j: int|
                        #![trigger acalls[j]]
                        0 <= j < acalls.len() ==> exists|q: &mut Parser|
                            #![trigger term.ensures((q,), acalls[j].result)]
                            {
                                &&& q.text() == old(self).text()
                                &&& q.offset() == acalls[j].start
                                &&& final(q).offset() == acalls[j].end
                                &&& term.ensures((q,), acalls[j].result)
                            }
                },
    {
        self.body_decl("inductive", SyntaxKind::Inductive, OptKind::Colon, false, ItemKind::Constructor, true, term, term)
    }
}

} // verus!
