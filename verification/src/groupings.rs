//! Terms in brackets: `(term)`, the unit `()`, subtypes `{x : T // P}`
//! and anonymous constructors `⟨a, b⟩`.
use vstd::prelude::*;
use crate::attributes::{Lex, err_is, ident_lex};
use crate::binder::binder_result;
use crate::declarations::{is_name_atom, node_of};
use crate::error::{ParseError, ParserResult, is_expected};
use crate::interpolation::TermCall;
use crate::literals::expect_error;
use crate::parser::{Parser, lemma_ident_at};
use crate::projections::char_at;
use crate::terms::is_term_boundary;
use crate::scan::{lemma_trivia_end, trivia_end};
use crate::syntax::{pos_at, range_at, Syntax, SyntaxKind};

verus! {

/// `s` is an atom spanning from `b` to `e` with the text `v`.
pub open spec fn atom_of(s: Syntax, t: Seq<char>, b: int, e: int, v: Seq<char>) -> bool {
    s matches Syntax::Atom(a) && a.value@ == v && a.range == range_at(t, b as nat, e as nat)
}

/// What `paren_term` returns from `p`, given the call of the term parser:
/// `(`, whitespace and comments, then either `)`, giving an `App` node of
/// the atoms `Unit` and `unit`, or a term read by the call, whitespace and
/// comments and `)`, giving that term.
pub open spec fn paren_result(p: Parser, q: Parser, r: ParserResult<Syntax>, calls: Seq<TermCall>) -> bool {
    let t = p.text();
    let i = p.offset() as int;
    let j = trivia_end(t, i + 1);
    &&& q.text() == t
    &&& if !(0 <= i < t.len() && t[i] == '(') {
        calls.len() == 0 && q.offset() == i && (r matches Err(e) && expect_error(*e, t, i, '('))
    } else if 0 <= j < t.len() && t[j] == ')' {
        &&& calls.len() == 0
        &&& q.offset() == j + 1
        &&& r matches Ok(x) && x matches Syntax::Node(n) && {
            &&& n.kind == SyntaxKind::App
            &&& n.range == range_at(t, i as nat, (j + 1) as nat)
            &&& n.children@.len() == 2
            &&& atom_of(n.children@[0], t, i, j + 1, "Unit"@)
            &&& atom_of(n.children@[1], t, i, j + 1, "unit"@)
        }
    } else if calls.len() != 1 || calls[0].start != j {
        false
    } else {
        match calls[0].result {
            Err(e) => q.offset() == calls[0].end && r == Err::<Syntax, Box<ParseError>>(e),
            Ok(x) => {
                let k = trivia_end(t, calls[0].end);
                if 0 <= k < t.len() && t[k] == ')' {
                    q.offset() == k + 1 && r == Ok::<Syntax, Box<ParseError>>(x)
                } else {
                    q.offset() == k && (r matches Err(e) && expect_error(*e, t, k, ')'))
                }
            },
        }
    }
}

/// Where element `m` of an anonymous constructor starts: at `j`, or after
/// the `,` (and whitespace and comments on both sides of it) that follows
/// the element before.
pub open spec fn elem_pos(t: Seq<char>, j: int, cs: Seq<TermCall>, m: int) -> int {
    if m == 0 {
        j
    } else {
        trivia_end(t, trivia_end(t, cs[m - 1].end) + 1)
    }
}

/// A `,` follows the element read by `c`, after whitespace and comments.
pub open spec fn comma_after(t: Seq<char>, c: TermCall) -> bool {
    let w = trivia_end(t, c.end);
    0 <= w < t.len() && t[w] == ','
}

/// The elements read by the calls `cs` from `j`: each starts where
/// `elem_pos` says, and every one but the last was read and is followed by
/// a `,`.
pub open spec fn elems_valid(t: Seq<char>, j: int, cs: Seq<TermCall>) -> bool {
    forall|m: int|
        0 <= m < cs.len() ==> {
            &&& #[trigger] cs[m].start == elem_pos(t, j, cs, m)
            &&& m + 1 < cs.len() ==> cs[m].result is Ok && comma_after(t, cs[m])
        }
}

/// The terms that the calls read.
pub open spec fn call_results(cs: Seq<TermCall>) -> Seq<Syntax> {
    cs.map_values(|c: TermCall| c.result->Ok_0)
}

/// `⟩` at `k` closes an anonymous constructor that started at `i` with the
/// elements `xs`; else the error where it is missing.
pub open spec fn anon_close(t: Seq<char>, i: int, k: int, xs: Seq<Syntax>, q: Parser, r: ParserResult<Syntax>) -> bool {
    if 0 <= k < t.len() && t[k] == '⟩' {
        q.offset() == k + 1 && node_of(r, t, i, k + 1, SyntaxKind::AnonymousConstructor, xs)
    } else {
        q.offset() == k && (r matches Err(e) && expect_error(*e, t, k, '⟩'))
    }
}

/// What `anonymous_constructor` returns from `p`, given the calls of the
/// term parser: `⟨`, whitespace and comments, then, unless `⟩` stands
/// there, terms separated by `,` (see `elems_valid`), each followed by
/// whitespace and comments, and `⟩`; an `AnonymousConstructor` node whose
/// children are the terms.
pub open spec fn anon_result(p: Parser, q: Parser, r: ParserResult<Syntax>, calls: Seq<TermCall>) -> bool {
    let t = p.text();
    let i = p.offset() as int;
    let j = trivia_end(t, i + 1);
    &&& q.text() == t
    &&& if !(0 <= i < t.len() && t[i] == '⟨') {
        calls.len() == 0 && q.offset() == i && (r matches Err(e) && expect_error(*e, t, i, '⟨'))
    } else if 0 <= j < t.len() && t[j] == '⟩' {
        calls.len() == 0 && anon_close(t, i, j, Seq::empty(), q, r)
    } else {
        &&& calls.len() >= 1
        &&& elems_valid(t, j, calls)
        &&& match calls.last().result {
            Err(e) => q.offset() == calls.last().end && r == Err::<Syntax, Box<ParseError>>(e),
            Ok(_) => !comma_after(t, calls.last()) && anon_close(t, i, trivia_end(t, calls.last().end), call_results(calls), q, r),
        }
    }
}

/// What `parse_subtype` returns from `p`, given the calls of the atom
/// parser (`acalls`) and of the term parser (`tcalls`): `{`, whitespace and
/// comments, an identifier, whitespace and comments, `:`, whitespace and
/// comments, a type read by the atom call, whitespace and comments, `//`,
/// whitespace and comments, a predicate read by the term call, whitespace
/// and comments, and `}`; a `Subtype` node whose children are the name,
/// the type and the predicate.
pub open spec fn subtype_result(p: Parser, q: Parser, r: ParserResult<Syntax>, acalls: Seq<TermCall>, tcalls: Seq<TermCall>) -> bool {
    let t = p.text();
    let i = p.offset() as int;
    let j = trivia_end(t, i + 1);
    &&& q.text() == t
    &&& if !(0 <= i < t.len() && t[i] == '{') {
        acalls.len() == 0 && tcalls.len() == 0 && q.offset() == i && (r matches Err(e) && expect_error(*e, t, i, '{'))
    } else {
        match ident_lex(t, j) {
            Lex::Token(name, e) => {
                let s1 = trivia_end(t, e);
                if !(0 <= s1 < t.len() && t[s1] == ':') {
                    acalls.len() == 0 && tcalls.len() == 0 && q.offset() == s1 && (r matches Err(err) && expect_error(*err, t, s1, ':'))
                } else if acalls.len() != 1 || acalls[0].start != trivia_end(t, s1 + 1) {
                    false
                } else {
                    match acalls[0].result {
                        Err(err) => tcalls.len() == 0 && q.offset() == acalls[0].end && r == Err::<Syntax, Box<ParseError>>(err),
                        Ok(ty) => {
                            let n = trivia_end(t, acalls[0].end);
                            if !(0 <= n && n + 1 < t.len() && t[n] == '/' && t[n + 1] == '/') {
                                tcalls.len() == 0 && q.offset() == n && (r matches Err(err) && is_expected(*err, "//"@, pos_at(t, n as nat)))
                            } else if tcalls.len() != 1 || tcalls[0].start != trivia_end(t, n + 2) {
                                false
                            } else {
                                match tcalls[0].result {
                                    Err(err) => q.offset() == tcalls[0].end && r == Err::<Syntax, Box<ParseError>>(err),
                                    Ok(pred) => {
                                        let k = trivia_end(t, tcalls[0].end);
                                        if 0 <= k < t.len() && t[k] == '}' {
                                            &&& q.offset() == k + 1
                                            &&& r matches Ok(x) && x matches Syntax::Node(nd) && {
                                                &&& nd.kind == SyntaxKind::Subtype
                                                &&& nd.range == range_at(t, i as nat, (k + 1) as nat)
                                                &&& nd.children@.len() == 3
                                                &&& is_name_atom(nd.children@[0], t, j, e, name)
                                                &&& nd.children@[1] == ty
                                                &&& nd.children@[2] == pred
                                            }
                                        } else {
                                            q.offset() == k && (r matches Err(err) && expect_error(*err, t, k, '}'))
                                        }
                                    },
                                }
                            }
                        },
                    }
                }
            },
            Lex::Fail(s, o) => acalls.len() == 0 && tcalls.len() == 0 && q.offset() == o && (r matches Err(err) && err_is(*err, s, t, o)),
            Lex::Paren => false,
        }
    }
}

/// How reading the arguments of an explicit application ends: with these
/// arguments and the cursor at the index given; or the calls do not fit
/// the text.
pub ghost enum ExplEnd {
    Done(Seq<Syntax>, int),
    Stuck,
}

/// The arguments `xs` come before those that `d` gives.
pub open spec fn expl_join(xs: Seq<Syntax>, d: ExplEnd) -> ExplEnd {
    match d {
        ExplEnd::Done(ys, e) => ExplEnd::Done(xs + ys, e),
        ExplEnd::Stuck => ExplEnd::Stuck,
    }
}

/// The arguments of an explicit application from `k`, which stands after
/// whitespace and comments: none where a term boundary stands there (see
/// `is_term_boundary`); else an atom read by the next call, tried from a
/// saved position: where it fails the arguments end at `k`, else it and
/// whitespace and comments come, then more arguments.
pub open spec fn expl_args(t: Seq<char>, k: int, calls: Seq<TermCall>) -> ExplEnd
    decreases calls.len(),
{
    if is_term_boundary(char_at(t, k)) {
        if calls.len() == 0 {
            ExplEnd::Done(Seq::empty(), k)
        } else {
            ExplEnd::Stuck
        }
    } else if calls.len() == 0 || calls[0].start != k {
        ExplEnd::Stuck
    } else {
        match calls[0].result {
            Err(_) => if calls.len() == 1 {
                ExplEnd::Done(Seq::empty(), k)
            } else {
                ExplEnd::Stuck
            },
            Ok(x) => expl_join(seq![x], expl_args(t, trivia_end(t, calls[0].end), calls.drop_first())),
        }
    }
}

/// What `explicit_application` returns from `p`, given the calls of the
/// atom parser: `@`, then at once the function read by the first call,
/// whitespace and comments, and the arguments (see `expl_args`); an
/// `ExplicitApp` node whose children are the function and the arguments.
pub open spec fn explicit_result(p: Parser, q: Parser, r: ParserResult<Syntax>, calls: Seq<TermCall>) -> bool {
    let t = p.text();
    let i = p.offset() as int;
    &&& q.text() == t
    &&& if !(0 <= i < t.len() && t[i] == '@') {
        calls.len() == 0 && q.offset() == i && (r matches Err(e) && expect_error(*e, t, i, '@'))
    } else {
        &&& calls.len() >= 1
        &&& calls[0].start == i + 1
        &&& match calls[0].result {
            Err(e) => calls.len() == 1 && q.offset() == calls[0].end && r == Err::<Syntax, Box<ParseError>>(e),
            Ok(f) => match expl_args(t, trivia_end(t, calls[0].end), calls.drop_first()) {
                ExplEnd::Done(xs, e) => q.offset() == e && node_of(r, t, i, e, SyntaxKind::ExplicitApp, seq![f] + xs),
                ExplEnd::Stuck => false,
            },
        }
    }
}

/// What `implicit_term` returns from `p`, given the calls of the atom parser
/// (`acalls`) and of the term parser (`tcalls`): a subtype tried from a
/// saved position (see `subtype_result`); where it fails, the cursor
/// returns and a binder group is read (see `binder_result`) with the term
/// calls that follow.
pub open spec fn implicit_result(p: Parser, q: Parser, r: ParserResult<Syntax>, acalls: Seq<TermCall>, tcalls: Seq<TermCall>) -> bool {
    let t = p.text();
    &&& q.text() == t
    &&& exists|b: Parser, q1: Parser, rs: ParserResult<Syntax>, st: Seq<TermCall>|
        #[trigger] subtype_result(b, q1, rs, acalls, st) && b.text() == t && b.offset() == p.offset() && match rs {
            Ok(_) => tcalls == st && q.offset() == q1.offset() && r == rs,
            Err(_) => {
                &&& tcalls.len() >= st.len()
                &&& tcalls.subrange(0, st.len() as int) == st
                &&& exists|b2: Parser|
                    #[trigger] binder_result(b2, q, r, tcalls.subrange(st.len() as int, tcalls.len() as int)) && b2.text() == t
                        && b2.offset() == p.offset()
            },
        }
}

impl Parser {
    /// `(term)` or the unit `()` (see `paren_result`; the call is one that
    /// `term` can make).
    #[verifier::spinoff_prover]
    pub fn paren_term<F>(&mut self, term: F) -> (r: ParserResult<Syntax>) where
        F: Fn(&mut Parser) -> ParserResult<Syntax>,
        requires
            old(self).wf(),
            forall|q: &mut Parser| q.wf() ==> term.requires((q,)),
            forall|q: &mut Parser, x: ParserResult<Syntax>|
                term.ensures((q,), x) ==> {
                    &&& final(q).wf()
                    &&& final(q).text() == q.text()
                    &&& final(q).offset() >= q.offset()
                },
        ensures
            final(self).wf(),
            exists|calls: Seq<TermCall>|
                #![trigger paren_result(*old(self), *final(self), r, calls)]
                {
                    &&& paren_result(*old(self), *final(self), r, calls)
                    &&& forall|j: int|
                        #![trigger calls[j]]
                        0 <= j < calls.len() ==> exists|q: &mut Parser|
                            #![trigger term.ensures((q,), calls[j].result)]
                            {
                                &&& q.text() == old(self).text()
                                &&& q.offset() == calls[j].start
                                &&& final(q).offset() == calls[j].end
                                &&& term.ensures((q,), calls[j].result)
                            }
                },
    {
        proof {
            self.lemma_wf();
            reveal_strlit("Unit");
            reveal_strlit("unit");
        }
        let ghost t = self.text();
        let ghost i = self.offset() as int;
        let ghost none: Seq<TermCall> = Seq::empty();
        let start = self.position();
        match self.expect_char('(') {
            Ok(()) => {},
            Err(e) => {
                proof { assert(paren_result(*old(self), *self, Err::<Syntax, Box<ParseError>>(e), none)); }
                return Err(e);
            },
        }
        self.skip_whitespace();
        proof {
            lemma_trivia_end(t, i + 1);
            self.lemma_wf();
        }
        let ghost j = self.offset() as int;
        if self.peek() == Some(')') {
            self.advance();
            let range = self.input().range_from(start);
            let unit_atom = self.create_atom(range, String::from_str("Unit"));
            let unit_atom2 = self.create_atom(range, String::from_str("unit"));
            let mut children: Vec<Syntax> = Vec::new();
            children.push(unit_atom);
            children.push(unit_atom2);
            let node = self.create_node(SyntaxKind::App, range, children);
            proof { assert(paren_result(*old(self), *self, Ok::<Syntax, Box<ParseError>>(node), none)); }
            return Ok(node);
        }
        let res = term(self);
        proof { self.lemma_wf(); }
        let ghost calls = seq![TermCall { start: j, end: self.offset() as int, result: res }];
        let x = match res {
            Ok(x) => x,
            Err(e) => {
                proof { assert(paren_result(*old(self), *self, Err::<Syntax, Box<ParseError>>(e), calls)); }
                return Err(e);
            },
        };
        let ghost e = self.offset() as int;
        self.skip_whitespace();
        proof {
            lemma_trivia_end(t, e);
            self.lemma_wf();
        }
        match self.expect_char(')') {
            Ok(()) => {},
            Err(err) => {
                proof { assert(paren_result(*old(self), *self, Err::<Syntax, Box<ParseError>>(err), calls)); }
                return Err(err);
            },
        }
        proof { assert(paren_result(*old(self), *self, Ok::<Syntax, Box<ParseError>>(x), calls)); }
        Ok(x)
    }

    /// An anonymous constructor `⟨a, b, c⟩` (see `anon_result`; the calls
    /// are ones that `term` can make).
    #[verifier::spinoff_prover]
    #[verifier::rlimit(40)]
    pub fn anonymous_constructor<F>(&mut self, term: F) -> (r: ParserResult<Syntax>) where
        F: Fn(&mut Parser) -> ParserResult<Syntax>,
        requires
            old(self).wf(),
            forall|q: &mut Parser| q.wf() ==> term.requires((q,)),
            forall|q: &mut Parser, x: ParserResult<Syntax>|
                term.ensures((q,), x) ==> {
                    &&& final(q).wf()
                    &&& final(q).text() == q.text()
                    &&& final(q).offset() >= q.offset()
                },
        ensures
            final(self).wf(),
            exists|calls: Seq<TermCall>|
                #![trigger anon_result(*old(self), *final(self), r, calls)]
                {
                    &&& anon_result(*old(self), *final(self), r, calls)
                    &&& forall|j: int|
                        #![trigger calls[j]]
                        0 <= j < calls.len() ==> exists|q: &mut Parser|
                            #![trigger term.ensures((q,), calls[j].result)]
                            {
                                &&& q.text() == old(self).text()
                                &&& q.offset() == calls[j].start
                                &&& final(q).offset() == calls[j].end
                                &&& term.ensures((q,), calls[j].result)
                            }
                },
    {
        proof { self.lemma_wf(); }
        let ghost t = self.text();
        let ghost i = self.offset() as int;
        let ghost none: Seq<TermCall> = Seq::empty();
        let start = self.position();
        match self.expect_char('⟨') {
            Ok(()) => {},
            Err(e) => {
                proof { assert(anon_result(*old(self), *self, Err::<Syntax, Box<ParseError>>(e), none)); }
                return Err(e);
            },
        }
        self.skip_whitespace();
        proof {
            lemma_trivia_end(t, i + 1);
            self.lemma_wf();
        }
        let ghost j = self.offset() as int;
        let mut elements: Vec<Syntax> = Vec::new();
        let ghost mut calls: Seq<TermCall> = Seq::empty();
        if self.peek() != Some('⟩') {
            loop
                invariant_except_break
                    self.offset() == elem_pos(t, j, calls, calls.len() as int),
                    calls.len() > 0 ==> comma_after(t, calls.last()),
                invariant
                    self.wf(),
                    self.text() == t,
                    t == old(self).text(),
                    i == old(self).offset(),
                    j <= self.offset() <= t.len(),
                    0 <= i < t.len() && t[i] == '⟨',
                    j == trivia_end(t, i + 1),
                    !(0 <= j < t.len() && t[j] == '⟩'),
                    forall|q: &mut Parser| q.wf() ==> term.requires((q,)),
                    forall|q: &mut Parser, x: ParserResult<Syntax>|
                        term.ensures((q,), x) ==> {
                            &&& final(q).wf()
                            &&& final(q).text() == q.text()
                            &&& final(q).offset() >= q.offset()
                        },
                    elems_valid(t, j, calls),
                    forall|m: int| 0 <= m < calls.len() ==> #[trigger] calls[m].result is Ok,
                    elements@ == call_results(calls),
                    forall|j: int|
                        #![trigger calls[j]]
                        0 <= j < calls.len() ==> exists|q: &mut Parser|
                            #![trigger term.ensures((q,), calls[j].result)]
                            {
                                &&& q.text() == t
                                &&& q.offset() == calls[j].start
                                &&& final(q).offset() == calls[j].end
                                &&& term.ensures((q,), calls[j].result)
                            },
                ensures
                    self.wf(),
                    self.text() == t,
                    calls.len() >= 1,
                    elems_valid(t, j, calls),
                    forall|m: int| 0 <= m < calls.len() ==> #[trigger] calls[m].result is Ok,
                    !comma_after(t, calls.last()),
                    self.offset() == trivia_end(t, calls.last().end),
                    elements@ == call_results(calls),
                    forall|j: int|
                        #![trigger calls[j]]
                        0 <= j < calls.len() ==> exists|q: &mut Parser|
                            #![trigger term.ensures((q,), calls[j].result)]
                            {
                                &&& q.text() == t
                                &&& q.offset() == calls[j].start
                                &&& final(q).offset() == calls[j].end
                                &&& term.ensures((q,), calls[j].result)
                            },
                decreases t.len() - self.offset(),
            {
                proof { self.lemma_wf(); }
                let ghost c = self.offset() as int;
                let res = term(self);
                proof { self.lemma_wf(); }
                let ghost call = TermCall { start: c, end: self.offset() as int, result: res };
                let ghost calls1 = calls.push(call);
                proof {
                    assert forall|m: int| 0 <= m < calls1.len() implies {
                        &&& #[trigger] calls1[m].start == elem_pos(t, j, calls1, m)
                        &&& m + 1 < calls1.len() ==> calls1[m].result is Ok && comma_after(t, calls1[m])
                    } by {
                        if m < calls.len() {
                            assert(calls1[m] == calls[m]);
                            if m > 0 {
                                assert(calls1[m - 1] == calls[m - 1]);
                            }
                        } else if m > 0 {
                            assert(calls1[m - 1] == calls[m - 1]);
                        }
                    }
                    assert(elems_valid(t, j, calls1));
                    assert forall|jj: int| #![trigger calls1[jj]] 0 <= jj < calls1.len() implies exists|q: &mut Parser|
                        #![trigger term.ensures((q,), calls1[jj].result)]
                        {
                            &&& q.text() == t
                            &&& q.offset() == calls1[jj].start
                            &&& final(q).offset() == calls1[jj].end
                            &&& term.ensures((q,), calls1[jj].result)
                        } by {
                        if jj < calls.len() {
                            assert(calls1[jj] == calls[jj]);
                        }
                    }
                }
                let x = match res {
                    Ok(x) => x,
                    Err(e) => {
                        proof {
                            assert(calls1.last() == call);
                            assert(elems_valid(t, j, calls1));
                            assert(calls1.len() >= 1);
                            assert(anon_result(*old(self), *self, Err::<Syntax, Box<ParseError>>(e), calls1));
                        }
                        return Err(e);
                    },
                };
                elements.push(x);
                proof {
                    calls = calls1;
                    assert(elements@ =~= call_results(calls));
                }
                let ghost e = self.offset() as int;
                self.skip_whitespace();
                proof {
                    lemma_trivia_end(t, e);
                    self.lemma_wf();
                }
                let ghost w = self.offset() as int;
                if self.peek() == Some(',') {
                    self.advance();
                    self.skip_whitespace();
                    proof {
                        lemma_trivia_end(t, w + 1);
                        self.lemma_wf();
                        assert(calls[calls.len() - 1] == call);
                        assert(self.offset() == elem_pos(t, j, calls, calls.len() as int));
                    }
                } else {
                    proof {
                        assert(calls.last() == call);
                        assert(!comma_after(t, calls.last()));
                    }
                    break;
                }
            }
        }
        match self.expect_char('⟩') {
            Ok(()) => {},
            Err(e) => {
                proof { assert(anon_result(*old(self), *self, Err::<Syntax, Box<ParseError>>(e), calls)); }
                return Err(e);
            },
        }
        let range = self.input().range_from(start);
        let ghost xs = elements@;
        let node = self.create_node(SyntaxKind::AnonymousConstructor, range, elements);
        proof {
            if calls.len() == 0 {
                assert(xs =~= Seq::<Syntax>::empty());
            }
            assert(anon_result(*old(self), *self, Ok::<Syntax, Box<ParseError>>(node), calls));
        }
        Ok(node)
    }

    /// A subtype `{x : T // P}` (see `subtype_result`; the type is read by
    /// `atom`, which stops before `//`, the predicate by `term`; both leave
    /// the saved positions as they found them, and so does this).
    #[verifier::spinoff_prover]
    #[verifier::rlimit(40)]
    pub fn parse_subtype<T, A>(&mut self, term: T, atom: A) -> (r: ParserResult<Syntax>) where
        T: Fn(&mut Parser) -> ParserResult<Syntax>,
        A: Fn(&mut Parser) -> ParserResult<Syntax>,
        requires
            old(self).wf(),
            forall|q: &mut Parser| q.wf() ==> term.requires((q,)),
            forall|q: &mut Parser, x: ParserResult<Syntax>|
                term.ensures((q,), x) ==> {
                    &&& final(q).wf()
                    &&& final(q).text() == q.text()
                    &&& final(q).offset() >= q.offset()
                    &&& final(q).saved() == q.saved()
                },
            forall|q: &mut Parser| q.wf() ==> atom.requires((q,)),
            forall|q: &mut Parser, x: ParserResult<Syntax>|
                atom.ensures((q,), x) ==> {
                    &&& final(q).wf()
                    &&& final(q).text() == q.text()
                    &&& final(q).offset() >= q.offset()
                    &&& final(q).saved() == q.saved()
                },
        ensures
            final(self).wf(),
            final(self).saved() == old(self).saved(),
            exists|acalls: Seq<TermCall>, tcalls: Seq<TermCall>|
                #![trigger subtype_result(*old(self), *final(self), r, acalls, tcalls)]
                {
                    &&& subtype_result(*old(self), *final(self), r, acalls, tcalls)
                    &&& forall|j: int|
                        #![trigger acalls[j]]
                        0 <= j < acalls.len() ==> exists|q: &mut Parser|
                            #![trigger atom.ensures((q,), acalls[j].result)]
                            {
                                &&& q.text() == old(self).text()
                                &&& q.offset() == acalls[j].start
                                &&& final(q).offset() == acalls[j].end
                                &&& atom.ensures((q,), acalls[j].result)
                            }
                    &&& forall|j: int|
                        #![trigger tcalls[j]]
                        0 <= j < tcalls.len() ==> exists|q: &mut Parser|
                            #![trigger term.ensures((q,), tcalls[j].result)]
                            {
                                &&& q.text() == old(self).text()
                                &&& q.offset() == tcalls[j].start
                                &&& final(q).offset() == tcalls[j].end
                                &&& term.ensures((q,), tcalls[j].result)
                            }
                },
    {
        proof {
            self.lemma_wf();
            reveal_strlit("//");
        }
        let ghost t = self.text();
        let ghost i = self.offset() as int;
        let ghost none: Seq<TermCall> = Seq::empty();
        let start = self.position();
        match self.expect_char('{') {
            Ok(()) => {},
            Err(e) => {
                proof { assert(subtype_result(*old(self), *self, Err::<Syntax, Box<ParseError>>(e), none, none)); }
                return Err(e);
            },
        }
        self.skip_whitespace();
        proof {
            lemma_trivia_end(t, i + 1);
            self.lemma_wf();
        }
        let ghost j = self.offset() as int;
        let name = match self.identifier() {
            Ok(n) => n,
            Err(e) => {
                proof { assert(subtype_result(*old(self), *self, Err::<Syntax, Box<ParseError>>(e), none, none)); }
                return Err(e);
            },
        };
        proof {
            lemma_ident_at(t, j);
            self.lemma_wf();
        }
        let ghost e = self.offset() as int;
        self.skip_whitespace();
        proof {
            lemma_trivia_end(t, e);
            self.lemma_wf();
        }
        let ghost s1 = self.offset() as int;
        match self.expect_char(':') {
            Ok(()) => {},
            Err(err) => {
                proof { assert(subtype_result(*old(self), *self, Err::<Syntax, Box<ParseError>>(err), none, none)); }
                return Err(err);
            },
        }
        self.skip_whitespace();
        proof {
            lemma_trivia_end(t, s1 + 1);
            self.lemma_wf();
        }
        let ghost c1 = self.offset() as int;
        let res1 = atom(self);
        proof { self.lemma_wf(); }
        let ghost acalls = seq![TermCall { start: c1, end: self.offset() as int, result: res1 }];
        let ty = match res1 {
            Ok(x) => x,
            Err(err) => {
                proof { assert(subtype_result(*old(self), *self, Err::<Syntax, Box<ParseError>>(err), acalls, none)); }
                return Err(err);
            },
        };
        let ghost e1 = self.offset() as int;
        self.skip_whitespace();
        proof {
            lemma_trivia_end(t, e1);
            self.lemma_wf();
        }
        let ghost n = self.offset() as int;
        if self.peek() != Some('/') || self.peek_nth(1) != Some('/') {
            let err = ParseError::expected("//", self.position());
            proof { assert(subtype_result(*old(self), *self, Err::<Syntax, Box<ParseError>>(err), acalls, none)); }
            return Err(err);
        }
        self.advance();
        self.advance();
        self.skip_whitespace();
        proof {
            lemma_trivia_end(t, n + 2);
            self.lemma_wf();
        }
        let ghost c2 = self.offset() as int;
        let res2 = term(self);
        proof { self.lemma_wf(); }
        let ghost tcalls = seq![TermCall { start: c2, end: self.offset() as int, result: res2 }];
        let pred = match res2 {
            Ok(x) => x,
            Err(err) => {
                proof { assert(subtype_result(*old(self), *self, Err::<Syntax, Box<ParseError>>(err), acalls, tcalls)); }
                return Err(err);
            },
        };
        let ghost e2 = self.offset() as int;
        self.skip_whitespace();
        proof {
            lemma_trivia_end(t, e2);
            self.lemma_wf();
        }
        match self.expect_char('}') {
            Ok(()) => {},
            Err(err) => {
                proof { assert(subtype_result(*old(self), *self, Err::<Syntax, Box<ParseError>>(err), acalls, tcalls)); }
                return Err(err);
            },
        }
        let mut children: Vec<Syntax> = Vec::new();
        children.push(name);
        children.push(ty);
        children.push(pred);
        let range = self.input().range_from(start);
        let node = self.create_node(SyntaxKind::Subtype, range, children);
        proof { assert(subtype_result(*old(self), *self, Ok::<Syntax, Box<ParseError>>(node), acalls, tcalls)); }
        Ok(node)
    }

    /// An explicit application `@f a b` (see `explicit_result`; the calls are
    /// ones that `atom` can make, which leaves the saved positions as it
    /// found them and moves on where it succeeds).
    #[verifier::spinoff_prover]
    #[verifier::rlimit(60)]
    pub fn explicit_application<A>(&mut self, atom: A) -> (r: ParserResult<Syntax>) where
        A: Fn(&mut Parser) -> ParserResult<Syntax> + Copy,
        requires
            old(self).wf(),
            forall|q: &mut Parser| q.wf() ==> atom.requires((q,)),
            forall|q: &mut Parser, x: ParserResult<Syntax>|
                atom.ensures((q,), x) ==> {
                    &&& final(q).wf()
                    &&& final(q).text() == q.text()
                    &&& final(q).offset() >= q.offset()
                    &&& final(q).saved() == q.saved()
                    &&& x is Ok ==> final(q).offset() > q.offset()
                },
        ensures
            final(self).wf(),
            exists|calls: Seq<TermCall>|
                #![trigger explicit_result(*old(self), *final(self), r, calls)]
                {
                    &&& explicit_result(*old(self), *final(self), r, calls)
                    &&& forall|j: int|
                        #![trigger calls[j]]
                        0 <= j < calls.len() ==> exists|q: &mut Parser|
                            #![trigger atom.ensures((q,), calls[j].result)]
                            {
                                &&& q.text() == old(self).text()
                                &&& q.offset() == calls[j].start
                                &&& final(q).offset() == calls[j].end
                                &&& atom.ensures((q,), calls[j].result)
                            }
                },
    {
        proof { self.lemma_wf(); }
        let ghost t = self.text();
        let ghost i = self.offset() as int;
        let ghost none: Seq<TermCall> = Seq::empty();
        let start = self.position();
        match self.expect_char('@') {
            Ok(()) => {},
            Err(e) => {
                proof { assert(explicit_result(*old(self), *self, Err::<Syntax, Box<ParseError>>(e), none)); }
                return Err(e);
            },
        }
        let res = atom(self);
        proof { self.lemma_wf(); }
        let ghost call0 = TermCall { start: i + 1, end: self.offset() as int, result: res };
        let func = match res {
            Ok(f) => f,
            Err(e) => {
                proof { assert(explicit_result(*old(self), *self, Err::<Syntax, Box<ParseError>>(e), seq![call0])); }
                return Err(e);
            },
        };
        let ghost gf = func;
        let ghost e0 = self.offset() as int;
        self.skip_whitespace();
        proof {
            lemma_trivia_end(t, e0);
            self.lemma_wf();
        }
        let ghost k0 = self.offset() as int;
        let mut args: Vec<Syntax> = Vec::new();
        args.push(func);
        let ghost mut cs: Seq<TermCall> = Seq::empty();
        proof {
            assert forall|rest: Seq<TermCall>| #![trigger expl_args(t, k0, cs + rest)]
                expl_args(t, k0, cs + rest) == expl_join(Seq::empty(), expl_args(t, k0, rest)) by {
                assert(cs + rest =~= rest);
                match expl_args(t, k0, rest) {
                    ExplEnd::Done(ys, e) => {
                        assert(Seq::<Syntax>::empty() + ys =~= ys);
                    },
                    ExplEnd::Stuck => {},
                }
            }
        }
        let mut done = false;
        while !done && !self.at_term_boundary()
            invariant
                self.wf(),
                self.text() == t,
                k0 <= self.offset() <= t.len(),
                forall|q: &mut Parser| q.wf() ==> atom.requires((q,)),
                forall|q: &mut Parser, x: ParserResult<Syntax>|
                    atom.ensures((q,), x) ==> {
                        &&& final(q).wf()
                        &&& final(q).text() == q.text()
                        &&& final(q).offset() >= q.offset()
                        &&& final(q).saved() == q.saved()
                        &&& x is Ok ==> final(q).offset() > q.offset()
                    },
                args@.len() >= 1,
                args@[0] == gf,
                !done ==> forall|rest: Seq<TermCall>| #![trigger expl_args(t, k0, cs + rest)]
                    expl_args(t, k0, cs + rest) == expl_join(args@.drop_first(), expl_args(t, self.offset() as int, rest)),
                done ==> expl_args(t, k0, cs) == ExplEnd::Done(args@.drop_first(), self.offset() as int),
                forall|j: int|
                    #![trigger cs[j]]
                    0 <= j < cs.len() ==> exists|q: &mut Parser|
                        #![trigger atom.ensures((q,), cs[j].result)]
                        {
                            &&& q.text() == t
                            &&& q.offset() == cs[j].start
                            &&& final(q).offset() == cs[j].end
                            &&& atom.ensures((q,), cs[j].result)
                        },
            decreases t.len() - self.offset(), if done { 0int } else { 1int },
        {
            let ghost k = self.offset() as int;
            let ghost xs = args@.drop_first();
            let ghost cs0 = cs;
            self.save_position();
            let pr = atom(self);
            proof { self.lemma_wf(); }
            let ghost call = TermCall { start: k, end: self.offset() as int, result: pr };
            proof {
                cs = cs0.push(call);
                assert forall|jj: int| #![trigger cs[jj]] 0 <= jj < cs.len() implies exists|q: &mut Parser|
                    #![trigger atom.ensures((q,), cs[jj].result)]
                    {
                        &&& q.text() == t
                        &&& q.offset() == cs[jj].start
                        &&& final(q).offset() == cs[jj].end
                        &&& atom.ensures((q,), cs[jj].result)
                    } by {
                    if jj < cs0.len() {
                        assert(cs[jj] == cs0[jj]);
                    }
                }
            }
            match pr {
                Ok(arg) => {
                    self.commit_position();
                    let ghost ga = arg;
                    args.push(arg);
                    let ghost e = self.offset() as int;
                    self.skip_whitespace();
                    proof {
                        lemma_trivia_end(t, e);
                        self.lemma_wf();
                        let k2 = self.offset() as int;
                        assert(args@.drop_first() =~= xs.push(ga));
                        assert forall|rest: Seq<TermCall>| #![trigger expl_args(t, k0, cs + rest)]
                            expl_args(t, k0, cs + rest) == expl_join(args@.drop_first(), expl_args(t, k2, rest)) by {
                            let rest1 = seq![call] + rest;
                            assert(cs + rest =~= cs0 + rest1);
                            assert(expl_args(t, k0, cs0 + rest1) == expl_join(xs, expl_args(t, k, rest1)));
                            assert(rest1[0] == call);
                            assert(rest1.drop_first() =~= rest);
                            assert(expl_args(t, k, rest1) == expl_join(seq![ga], expl_args(t, k2, rest)));
                            match expl_args(t, k2, rest) {
                                ExplEnd::Done(ys, e2) => {
                                    assert(xs + (seq![ga] + ys) =~= xs.push(ga) + ys);
                                },
                                ExplEnd::Stuck => {},
                            }
                        }
                    }
                },
                Err(_) => {
                    self.restore_position();
                    done = true;
                    proof {
                        self.lemma_wf();
                        assert(self.offset() == k);
                        let rest1 = seq![call];
                        assert(cs =~= cs0 + rest1);
                        assert(expl_args(t, k0, cs0 + rest1) == expl_join(xs, expl_args(t, k, rest1)));
                        assert(expl_args(t, k, rest1) == ExplEnd::Done(Seq::<Syntax>::empty(), k));
                        assert(xs + Seq::<Syntax>::empty() =~= xs);
                    }
                },
            }
        }
        let ghost kb = self.offset() as int;
        proof {
            if !done {
                assert(cs + Seq::<TermCall>::empty() =~= cs);
                assert(expl_args(t, k0, cs + Seq::<TermCall>::empty()) == expl_join(args@.drop_first(), expl_args(t, kb, Seq::<TermCall>::empty())));
                assert(args@.drop_first() + Seq::<Syntax>::empty() =~= args@.drop_first());
            }
            assert(expl_args(t, k0, cs) == ExplEnd::Done(args@.drop_first(), kb));
        }
        let ghost va = args@;
        let range = self.input().range_from(start);
        let node = self.create_node(SyntaxKind::ExplicitApp, range, args);
        proof {
            let calls = seq![call0] + cs;
            assert(calls.drop_first() =~= cs);
            assert(calls[0] == call0);
            assert(va =~= seq![gf] + va.drop_first());
            assert forall|jj: int| #![trigger calls[jj]] 0 <= jj < calls.len() implies exists|q: &mut Parser|
                #![trigger atom.ensures((q,), calls[jj].result)]
                {
                    &&& q.text() == t
                    &&& q.offset() == calls[jj].start
                    &&& final(q).offset() == calls[jj].end
                    &&& atom.ensures((q,), calls[jj].result)
                } by {
                if jj > 0 {
                    assert(calls[jj] == cs[jj - 1]);
                }
            }
            assert(explicit_result(*old(self), *self, Ok::<Syntax, Box<ParseError>>(node), calls));
        }
        Ok(node)
    }

    /// `{x : T // P}` or an implicit binder group `{x : T}`: a subtype tried
    /// from a saved position, else a binder group (see `implicit_result`;
    /// the calls are ones that `term` and `atom` can make, which leave the
    /// saved positions as they found them).
    #[verifier::spinoff_prover]
    #[verifier::rlimit(60)]
    pub fn implicit_term<T, A>(&mut self, term: T, atom: A) -> (r: ParserResult<Syntax>) where
        T: Fn(&mut Parser) -> ParserResult<Syntax> + Copy,
        A: Fn(&mut Parser) -> ParserResult<Syntax>,
        requires
            old(self).wf(),
            forall|q: &mut Parser| q.wf() ==> term.requires((q,)),
            forall|q: &mut Parser, x: ParserResult<Syntax>|
                term.ensures((q,), x) ==> {
                    &&& final(q).wf()
                    &&& final(q).text() == q.text()
                    &&& final(q).offset() >= q.offset()
                    &&& final(q).saved() == q.saved()
                },
            forall|q: &mut Parser| q.wf() ==> atom.requires((q,)),
            forall|q: &mut Parser, x: ParserResult<Syntax>|
                atom.ensures((q,), x) ==> {
                    &&& final(q).wf()
                    &&& final(q).text() == q.text()
                    &&& final(q).offset() >= q.offset()
                    &&& final(q).saved() == q.saved()
                },
        ensures
            final(self).wf(),
            exists|acalls: Seq<TermCall>, tcalls: Seq<TermCall>|
                #![trigger implicit_result(*old(self), *final(self), r, acalls, tcalls)]
                {
                    &&& implicit_result(*old(self), *final(self), r, acalls, tcalls)
                    &&& forall|j: int|
                        #![trigger acalls[j]]
                        0 <= j < acalls.len() ==> exists|q: &mut Parser|
                            #![trigger atom.ensures((q,), acalls[j].result)]
                            {
                                &&& q.text() == old(self).text()
                                &&& q.offset() == acalls[j].start
                                &&& final(q).offset() == acalls[j].end
                                &&& atom.ensures((q,), acalls[j].result)
                            }
                    &&& forall|j: int|
                        #![trigger tcalls[j]]
                        0 <= j < tcalls.len() ==> exists|q: &mut Parser|
                            #![trigger term.ensures((q,), tcalls[j].result)]
                            {
                                &&& q.text() == old(self).text()
                                &&& q.offset() == tcalls[j].start
                                &&& final(q).offset() == tcalls[j].end
                                &&& term.ensures((q,), tcalls[j].result)
                            }
                },
    {
        proof {
            self.lemma_wf();
            old(self).lemma_wf();
            assert(old(self).saved().push(old(self).offset()).drop_last() =~= old(self).saved());
        }
        let ghost t = self.text();
        let ghost i = self.offset() as int;
        self.save_position();
        let ghost b = *self;
        let rs = self.parse_subtype(term, atom);
        let ghost q1 = *self;
        let ghost (sa, st) = choose|sa: Seq<TermCall>, st: Seq<TermCall>|
            {
                &&& subtype_result(b, q1, rs, sa, st)
                &&& forall|j: int|
                    #![trigger sa[j]]
                    0 <= j < sa.len() ==> exists|q: &mut Parser|
                        #![trigger atom.ensures((q,), sa[j].result)]
                        {
                            &&& q.text() == t
                            &&& q.offset() == sa[j].start
                            &&& final(q).offset() == sa[j].end
                            &&& atom.ensures((q,), sa[j].result)
                        }
                &&& forall|j: int|
                    #![trigger st[j]]
                    0 <= j < st.len() ==> exists|q: &mut Parser|
                        #![trigger term.ensures((q,), st[j].result)]
                        {
                            &&& q.text() == t
                            &&& q.offset() == st[j].start
                            &&& final(q).offset() == st[j].end
                            &&& term.ensures((q,), st[j].result)
                        }
            };
        match rs {
            Ok(x) => {
                self.commit_position();
                proof {
                    assert(implicit_result(*old(self), *self, Ok::<Syntax, Box<ParseError>>(x), sa, st));
                }
                Ok(x)
            },
            Err(_) => {
                self.restore_position();
                proof { self.lemma_wf(); }
                let ghost b2 = *self;
                let rb = self.binder_group(term);
                proof {
                    let bt = choose|bt: Seq<TermCall>|
                        {
                            &&& binder_result(b2, *self, rb, bt)
                            &&& forall|j: int|
                                #![trigger bt[j]]
                                0 <= j < bt.len() ==> exists|q: &mut Parser|
                                    #![trigger term.ensures((q,), bt[j].result)]
                                    {
                                        &&& q.text() == t
                                        &&& q.offset() == bt[j].start
                                        &&& final(q).offset() == bt[j].end
                                        &&& term.ensures((q,), bt[j].result)
                                    }
                        };
                    let tcalls = st + bt;
                    assert(tcalls.subrange(0, st.len() as int) =~= st);
                    assert(tcalls.subrange(st.len() as int, tcalls.len() as int) =~= bt);
                    assert forall|jj: int| #![trigger tcalls[jj]] 0 <= jj < tcalls.len() implies exists|q: &mut Parser|
                        #![trigger term.ensures((q,), tcalls[jj].result)]
                        {
                            &&& q.text() == t
                            &&& q.offset() == tcalls[jj].start
                            &&& final(q).offset() == tcalls[jj].end
                            &&& term.ensures((q,), tcalls[jj].result)
                        } by {
                        if jj < st.len() {
                            assert(tcalls[jj] == st[jj]);
                        } else {
                            assert(tcalls[jj] == bt[jj - st.len()]);
                        }
                    }
                    assert(implicit_result(*old(self), *self, rb, sa, tcalls));
                }
                rb
            },
        }
    }
}

} // verus!
