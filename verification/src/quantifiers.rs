//! Binding terms: `λ x (y : T) => body`, `fun …`, `∀ x (y : T), body`,
//! `forall …`.
use vstd::prelude::*;
use crate::attributes::{Lex, ident_lex};
use crate::binder::binder_result;
use crate::declarations::{BinderPhase, BinderStep, binder_open, char_at_spec, flatten, is_name_atom, node_of, step_pos, step_results};
use crate::error::{ParseError, ParserResult, is_expected};
use crate::interpolation::TermCall;
use crate::literals::expect_error;
use crate::parser::{Parser, keyword_at, lemma_ident_at};
use crate::scan::{lemma_trivia_end, trivia_end};
use crate::syntax::{pos_at, range_at, SourcePos, Syntax, SyntaxKind};
use crate::tactics::keyword_missing;

verus! {

/// The binders of a lambda (up to `=>` or `→`) or of a `∀` (up to `,`).
#[derive(Clone, Copy, PartialEq, Eq, Structural)]
pub enum ListKind {
    Lambda,
    Forall,
}

/// Another binder of `kind` follows at `pos`: a binder bracket or the
/// start of an identifier, where the list does not end.
pub open spec fn list_cont(t: Seq<char>, kind: ListKind, pos: int) -> bool {
    &&& 0 <= pos < t.len()
    &&& match kind {
        ListKind::Lambda => t[pos] != '=' && t[pos] != '→',
        ListKind::Forall => t[pos] != ',',
    }
    &&& (binder_open(Some(t[pos])) || crate::lexical::spec_is_id_start(t[pos]))
}

/// What reading one binder of `kind` from `b` gives: a binder group where a
/// bracket stands (see `binder_result`); else an identifier, which in a
/// `∀`, after whitespace and comments, may be followed by `:`, whitespace
/// and comments and a type read by the call, making a `LeftParen` node
/// that spans from `i` (where the `∀` term starts) to the type's end.
pub open spec fn list_item_rel(kind: ListKind, i: int, b: Parser, q: Parser, r: ParserResult<Syntax>, calls: Seq<TermCall>) -> bool {
    let t = b.text();
    let k = b.offset() as int;
    &&& q.text() == t
    &&& if binder_open(char_at_spec(t, k)) {
        binder_result(b, q, r, calls)
    } else {
        match ident_lex(t, k) {
            Lex::Token(v, e) => match kind {
                ListKind::Lambda => calls.len() == 0 && q.offset() == e && (r matches Ok(x) && is_name_atom(x, t, k, e, v)),
                ListKind::Forall => {
                    let s1 = trivia_end(t, e);
                    if 0 <= s1 < t.len() && t[s1] == ':' {
                        &&& calls.len() == 1
                        &&& calls[0].start == trivia_end(t, s1 + 1)
                        &&& q.offset() == calls[0].end
                        &&& match calls[0].result {
                            Err(err) => r == Err::<Syntax, Box<ParseError>>(err),
                            Ok(ty) => r matches Ok(x) && x matches Syntax::Node(n) && {
                                &&& n.kind == SyntaxKind::LeftParen
                                &&& n.range == range_at(t, i as nat, calls[0].end as nat)
                                &&& n.children@.len() == 2
                                &&& is_name_atom(n.children@[0], t, k, e, v)
                                &&& n.children@[1] == ty
                            },
                        }
                    } else {
                        calls.len() == 0 && q.offset() == s1 && (r matches Ok(x) && is_name_atom(x, t, k, e, v))
                    }
                },
            },
            _ => false,
        }
    }
}

/// The step is a binder of `kind` (see `list_item_rel`).
pub open spec fn list_item_ok(t: Seq<char>, kind: ListKind, i: int, st: BinderStep) -> bool {
    exists|b: Parser, q: Parser|
        #[trigger] list_item_rel(kind, i, b, q, Ok::<Syntax, Box<ParseError>>(st.result), st.calls) && b.text() == t
            && b.offset() == st.start && q.offset() == st.end
}

/// Binders of `kind` from `k0`, one after another while one follows (see
/// `list_cont`), each followed by whitespace and comments, ended as `phase`
/// says.
pub open spec fn list_valid(t: Seq<char>, k0: int, kind: ListKind, i: int, steps: Seq<BinderStep>, phase: BinderPhase) -> bool {
    let kp = step_pos(t, k0, steps, steps.len() as int);
    &&& forall|m: int|
        0 <= m < steps.len() ==> {
            &&& #[trigger] steps[m].start == step_pos(t, k0, steps, m)
            &&& list_cont(t, kind, steps[m].start)
            &&& list_item_ok(t, kind, i, steps[m])
        }
    &&& match phase {
        BinderPhase::Ended(kb) => kb == kp && !list_cont(t, kind, kb),
        BinderPhase::Failed(st, cs, err, at) => {
            &&& st == kp
            &&& list_cont(t, kind, st)
            &&& exists|b: Parser, q: Parser|
                #[trigger] list_item_rel(kind, i, b, q, Err::<Syntax, Box<ParseError>>(err), cs) && b.text() == t && b.offset() == st
                    && q.offset() == at
        },
    }
}

/// The binders `steps` were read from `k0` and the cursor stands at `k`
/// after them; `v` is their syntax.
pub open spec fn list_so_far(t: Seq<char>, k0: int, k: int, kind: ListKind, i: int, steps: Seq<BinderStep>, v: Seq<Syntax>) -> bool {
    &&& forall|m: int|
        0 <= m < steps.len() ==> {
            &&& #[trigger] steps[m].start == step_pos(t, k0, steps, m)
            &&& list_cont(t, kind, steps[m].start)
            &&& list_item_ok(t, kind, i, steps[m])
        }
    &&& k == step_pos(t, k0, steps, steps.len() as int)
    &&& v == step_results(steps)
}

/// What `binder_list` returns from `p`: the binders `steps`, ended as
/// `phase` says; on success their syntax, in order.
pub open spec fn list_result(
    p: Parser,
    q: Parser,
    r: ParserResult<Vec<Syntax>>,
    kind: ListKind,
    i: int,
    calls: Seq<TermCall>,
    steps: Seq<BinderStep>,
    phase: BinderPhase,
) -> bool {
    let t = p.text();
    &&& q.text() == t
    &&& list_valid(t, p.offset() as int, kind, i, steps, phase)
    &&& match phase {
        BinderPhase::Ended(kb) => {
            &&& calls == flatten(steps)
            &&& q.offset() == kb
            &&& r matches Ok(v) && v@ == step_results(steps)
        },
        BinderPhase::Failed(_, cs, err, at) => {
            &&& calls == flatten(steps) + cs
            &&& q.offset() == at
            &&& r == Err::<Vec<Syntax>, Box<ParseError>>(err)
        },
    }
}


/// The symbol that may lead a term of `kind`: `λ` or a backslash for a lambda,
/// `∀` for a `∀`.
pub open spec fn lead_symbol(kind: ListKind, c: char) -> bool {
    match kind {
        ListKind::Lambda => c == 'λ' || c == '\\',
        ListKind::Forall => c == '∀',
    }
}

/// The keyword that may lead a term of `kind` instead of its symbol.
pub open spec fn lead_keyword(kind: ListKind) -> Seq<char> {
    match kind {
        ListKind::Lambda => "fun"@,
        ListKind::Forall => "forall"@,
    }
}

/// Where the body of a term of `kind` may start after its binders end at
/// `kb`: after `=>` or `→` in a lambda, after `,` in a `∀`; -1 where that
/// separator is missing.
pub open spec fn after_separator(t: Seq<char>, kind: ListKind, kb: int) -> int {
    match kind {
        ListKind::Lambda => if 0 <= kb && kb + 1 < t.len() && t[kb] == '=' && t[kb + 1] == '>' {
            kb + 2
        } else if 0 <= kb < t.len() && t[kb] == '→' {
            kb + 1
        } else {
            -1
        },
        ListKind::Forall => if 0 <= kb < t.len() && t[kb] == ',' {
            kb + 1
        } else {
            -1
        },
    }
}

/// The error where the separator of a term of `kind` is missing at `kb`.
pub open spec fn separator_error(e: ParseError, t: Seq<char>, kind: ListKind, kb: int) -> bool {
    match kind {
        ListKind::Lambda => is_expected(e, "=> or →"@, pos_at(t, kb as nat)),
        ListKind::Forall => expect_error(e, t, kb, ','),
    }
}

/// What `lambda_term` (for `Lambda`) or `forall_term` (for `Forall`)
/// returns from `p`, given the calls of the term parser and the binders
/// read: the symbol or keyword, whitespace and comments, the binders (see
/// `list_valid`), the separator, whitespace and comments, and the body read
/// by the last call. A `Lambda` or `Forall` node spanning from `p`'s cursor
/// to the body's end, whose children are the binders and the body.
pub open spec fn binding_result(
    p: Parser,
    q: Parser,
    r: ParserResult<Syntax>,
    kind: ListKind,
    calls: Seq<TermCall>,
    steps: Seq<BinderStep>,
    phase: BinderPhase,
) -> bool {
    let t = p.text();
    let i = p.offset() as int;
    let sym = 0 <= i < t.len() && lead_symbol(kind, t[i]);
    let kw = lead_keyword(kind);
    let k0 = if sym { trivia_end(t, i + 1) } else { trivia_end(t, i + kw.len()) };
    let node_kind = match kind {
        ListKind::Lambda => SyntaxKind::Lambda,
        ListKind::Forall => SyntaxKind::Forall,
    };
    &&& q.text() == t
    &&& if !sym && !keyword_at(t, i, kw) {
        calls.len() == 0 && keyword_missing(p, q, r, kw)
    } else {
        let fl = flatten(steps);
        &&& list_valid(t, k0, kind, i, steps, phase)
        &&& calls.len() >= fl.len()
        &&& calls.subrange(0, fl.len() as int) == fl
        &&& match phase {
            BinderPhase::Failed(_, cs, err, at) => {
                &&& calls == fl + cs
                &&& q.offset() == at
                &&& r == Err::<Syntax, Box<ParseError>>(err)
            },
            BinderPhase::Ended(kb) => {
                let rest = calls.subrange(fl.len() as int, calls.len() as int);
                let after = after_separator(t, kind, kb);
                if after < 0 {
                    &&& rest.len() == 0
                    &&& q.offset() == kb
                    &&& r matches Err(e) && separator_error(*e, t, kind, kb)
                } else if rest.len() != 1 || rest[0].start != trivia_end(t, after) {
                    false
                } else {
                    &&& q.offset() == rest[0].end
                    &&& match rest[0].result {
                        Err(e) => r == Err::<Syntax, Box<ParseError>>(e),
                        Ok(body) => node_of(r, t, i, rest[0].end, node_kind, step_results(steps).push(body)),
                    }
                }
            },
        }
    }
}

impl Parser {
    /// One binder of `kind` at the cursor (see `list_item_rel`; the call is
    /// one that `term` can make); the term being read started at `i`, given
    /// as `start`.
    #[verifier::spinoff_prover]
    fn list_item<F>(&mut self, kind: ListKind, start: SourcePos, Ghost(i): Ghost<int>, term: F) -> (r: ParserResult<Syntax>) where
        F: Fn(&mut Parser) -> ParserResult<Syntax>,
        requires
            old(self).wf(),
            0 <= i,
            start == pos_at(old(self).text(), i as nat),
            list_cont(old(self).text(), kind, old(self).offset() as int),
            forall|q: &mut Parser| q.wf() ==> term.requires((q,)),
            forall|q: &mut Parser, x: ParserResult<Syntax>|
                term.ensures((q,), x) ==> {
                    &&& final(q).wf()
                    &&& final(q).text() == q.text()
                    &&& final(q).offset() >= q.offset()
                },
        ensures
            final(self).wf(),
            r is Ok ==> final(self).offset() > old(self).offset(),
            exists|calls: Seq<TermCall>|
                #![trigger list_item_rel(kind, i, *old(self), *final(self), r, calls)]
                {
                    &&& list_item_rel(kind, i, *old(self), *final(self), r, calls)
                    &&& forall|j: int|
                        #![trigger calls[j]]
                        0 <= j < calls.len() ==> exists|q: &mut Parser|
                            #![trigger term.ensures((q,), calls[j].result)]
                            {
                                &&& q.text() == old(self).text()
                                &&& q.offset() == calls[j].start
                                &&& final(q).offset() == calls[j].end
                                &&& term.ensures((q,), calls[j].result)
                            }
                },
    {
        proof { self.lemma_wf(); }
        let ghost t = self.text();
        let ghost k = self.offset() as int;
        let ghost none: Seq<TermCall> = Seq::empty();
        if self.at_binder_open() {
            let r = self.binder_group(term);
            proof {
                self.lemma_wf();
                let calls = choose|calls: Seq<TermCall>|
                    {
                        &&& binder_result(*old(self), *self, r, calls)
                        &&& forall|j: int|
                            #![trigger calls[j]]
                            0 <= j < calls.len() ==> exists|q: &mut Parser|
                                #![trigger term.ensures((q,), calls[j].result)]
                                {
                                    &&& q.text() == t
                                    &&& q.offset() == calls[j].start
                                    &&& final(q).offset() == calls[j].end
                                    &&& term.ensures((q,), calls[j].result)
                                }
                    };
                assert(list_item_rel(kind, i, *old(self), *self, r, calls));
            }
            return r;
        }
        proof {
            crate::attributes::lemma_no_trivia_at_id_start(t, k);
            lemma_ident_at(t, k);
        }
        let name = match self.identifier() {
            Ok(n) => n,
            Err(e) => {
                proof { assert(false); }
                return Err(e);
            },
        };
        proof { self.lemma_wf(); }
        match kind {
            ListKind::Lambda => {
                proof { assert(list_item_rel(kind, i, *old(self), *self, Ok::<Syntax, Box<ParseError>>(name), none)); }
                Ok(name)
            },
            ListKind::Forall => {
                let ghost e = self.offset() as int;
                self.skip_whitespace();
                proof {
                    lemma_trivia_end(t, e);
                    self.lemma_wf();
                }
                let ghost s1 = self.offset() as int;
                if self.peek() == Some(':') {
                    self.advance();
                    self.skip_whitespace();
                    proof {
                        lemma_trivia_end(t, s1 + 1);
                        self.lemma_wf();
                    }
                    let ghost c = self.offset() as int;
                    let res = term(self);
                    proof { self.lemma_wf(); }
                    let ghost calls = seq![TermCall { start: c, end: self.offset() as int, result: res }];
                    let ty = match res {
                        Ok(ty) => ty,
                        Err(err) => {
                            proof { assert(list_item_rel(kind, i, *old(self), *self, Err::<Syntax, Box<ParseError>>(err), calls)); }
                            return Err(err);
                        },
                    };
                    let mut children: Vec<Syntax> = Vec::new();
                    children.push(name);
                    children.push(ty);
                    let range = self.input().range_from(start);
                    let node = self.create_node(SyntaxKind::LeftParen, range, children);
                    proof { assert(list_item_rel(kind, i, *old(self), *self, Ok::<Syntax, Box<ParseError>>(node), calls)); }
                    Ok(node)
                } else {
                    proof { assert(list_item_rel(kind, i, *old(self), *self, Ok::<Syntax, Box<ParseError>>(name), none)); }
                    Ok(name)
                }
            },
        }
    }

    /// Does another binder of `kind` follow at the cursor (see `list_cont`)?
    fn at_list_item(&self, kind: ListKind) -> (b: bool)
        requires
            self.wf(),
        ensures
            b == list_cont(self.text(), kind, self.offset() as int),
    {
        proof { self.lemma_wf(); }
        match self.peek() {
            None => false,
            Some(c) => {
                let open = c == '{' || c == '[' || c == '(';
                let ends = match kind {
                    ListKind::Lambda => c == '=' || c == '→',
                    ListKind::Forall => c == ',',
                };
                !ends && (open || crate::lexical::is_id_start(c))
            },
        }
    }

    /// Binders of `kind` at the cursor, one after another while one
    /// follows, each followed by whitespace and comments (see
    /// `list_result`; the calls are ones that `term` can make); the term
    /// being read started at `i`, given as `start`.
    #[verifier::spinoff_prover]
    #[verifier::rlimit(80)]
    fn binder_list<F>(&mut self, kind: ListKind, start: SourcePos, Ghost(i): Ghost<int>, term: F) -> (r: ParserResult<Vec<Syntax>>) where
        F: Fn(&mut Parser) -> ParserResult<Syntax> + Copy,
        requires
            old(self).wf(),
            0 <= i,
            start == pos_at(old(self).text(), i as nat),
            forall|q: &mut Parser| q.wf() ==> term.requires((q,)),
            forall|q: &mut Parser, x: ParserResult<Syntax>|
                term.ensures((q,), x) ==> {
                    &&& final(q).wf()
                    &&& final(q).text() == q.text()
                    &&& final(q).offset() >= q.offset()
                },
        ensures
            final(self).wf(),
            exists|calls: Seq<TermCall>, steps: Seq<BinderStep>, phase: BinderPhase|
                #![trigger list_result(*old(self), *final(self), r, kind, i, calls, steps, phase)]
                {
                    &&& list_result(*old(self), *final(self), r, kind, i, calls, steps, phase)
                    &&& forall|j: int|
                        #![trigger calls[j]]
                        0 <= j < calls.len() ==> exists|q: &mut Parser|
                            #![trigger term.ensures((q,), calls[j].result)]
                            {
                                &&& q.text() == old(self).text()
                                &&& q.offset() == calls[j].start
                                &&& final(q).offset() == calls[j].end
                                &&& term.ensures((q,), calls[j].result)
                            }
                },
    {
        proof { self.lemma_wf(); }
        let ghost t = self.text();
        let ghost k0 = self.offset() as int;
        let mut items: Vec<Syntax> = Vec::new();
        proof {
            assert(items@ =~= step_results(Seq::<BinderStep>::empty()));
            assert(list_so_far(t, k0, k0, kind, i, Seq::empty(), items@));
            assert(flatten(Seq::<BinderStep>::empty()).len() == 0);
        }
        while self.at_list_item(kind)
            invariant
                self.wf(),
                t == self.text(),
                t == old(self).text(),
                k0 == old(self).offset(),
                k0 <= self.offset() <= t.len(),
                0 <= i,
                start == pos_at(t, i as nat),
                forall|q: &mut Parser| q.wf() ==> term.requires((q,)),
                forall|q: &mut Parser, x: ParserResult<Syntax>|
                    term.ensures((q,), x) ==> {
                        &&& final(q).wf()
                        &&& final(q).text() == q.text()
                        &&& final(q).offset() >= q.offset()
                    },
                exists|steps: Seq<BinderStep>|
                    #![trigger list_so_far(t, k0, self.offset() as int, kind, i, steps, items@)]
                    {
                        &&& list_so_far(t, k0, self.offset() as int, kind, i, steps, items@)
                        &&& forall|j: int|
                            #![trigger flatten(steps)[j]]
                            0 <= j < flatten(steps).len() ==> exists|q: &mut Parser|
                                #![trigger term.ensures((q,), flatten(steps)[j].result)]
                                {
                                    &&& q.text() == t
                                    &&& q.offset() == flatten(steps)[j].start
                                    &&& final(q).offset() == flatten(steps)[j].end
                                    &&& term.ensures((q,), flatten(steps)[j].result)
                                }
                    },
            decreases t.len() - self.offset(),
        {
            proof { self.lemma_wf(); }
            let ghost k = self.offset() as int;
            let ghost v0 = items@;
            let ghost steps0 = choose|steps: Seq<BinderStep>|
                {
                    &&& list_so_far(t, k0, k, kind, i, steps, v0)
                    &&& forall|j: int|
                        #![trigger flatten(steps)[j]]
                        0 <= j < flatten(steps).len() ==> exists|q: &mut Parser|
                            #![trigger term.ensures((q,), flatten(steps)[j].result)]
                            {
                                &&& q.text() == t
                                &&& q.offset() == flatten(steps)[j].start
                                &&& final(q).offset() == flatten(steps)[j].end
                                &&& term.ensures((q,), flatten(steps)[j].result)
                            }
                };
            let ghost p1 = *self;
            let res = self.list_item(kind, start, Ghost(i), term);
            let ghost q1 = *self;
            let ghost cs = choose|cs: Seq<TermCall>|
                {
                    &&& list_item_rel(kind, i, p1, q1, res, cs)
                    &&& forall|j: int|
                        #![trigger cs[j]]
                        0 <= j < cs.len() ==> exists|q: &mut Parser|
                            #![trigger term.ensures((q,), cs[j].result)]
                            {
                                &&& q.text() == t
                                &&& q.offset() == cs[j].start
                                &&& final(q).offset() == cs[j].end
                                &&& term.ensures((q,), cs[j].result)
                            }
                };
            let ghost all = flatten(steps0) + cs;
            proof {
                self.lemma_wf();
                assert forall|j: int| #![trigger all[j]] 0 <= j < all.len() implies exists|q: &mut Parser|
                    #![trigger term.ensures((q,), all[j].result)]
                    {
                        &&& q.text() == t
                        &&& q.offset() == all[j].start
                        &&& final(q).offset() == all[j].end
                        &&& term.ensures((q,), all[j].result)
                    } by {
                    if j < flatten(steps0).len() {
                        assert(all[j] == flatten(steps0)[j]);
                    } else {
                        assert(all[j] == cs[j - flatten(steps0).len()]);
                    }
                }
            }
            let item = match res {
                Ok(x) => x,
                Err(e) => {
                    proof {
                        let phase = BinderPhase::Failed(k, cs, e, self.offset() as int);
                        assert(list_item_rel(kind, i, p1, q1, Err::<Syntax, Box<ParseError>>(phase->Failed_2), phase->Failed_1));
                        assert(list_valid(t, k0, kind, i, steps0, phase));
                        assert(list_result(*old(self), *self, Err::<Vec<Syntax>, Box<ParseError>>(e), kind, i, all, steps0, phase));
                    }
                    return Err(e);
                },
            };
            let ghost e = self.offset() as int;
            let ghost step = BinderStep { start: k, end: e, result: item, calls: cs };
            items.push(item);
            self.skip_whitespace();
            proof {
                lemma_trivia_end(t, e);
                self.lemma_wf();
                let steps1 = steps0.push(step);
                assert(steps1.drop_last() =~= steps0);
                assert(flatten(steps1) == all);
                assert(list_item_rel(kind, i, p1, q1, Ok::<Syntax, Box<ParseError>>(step.result), step.calls));
                assert(list_item_ok(t, kind, i, step));
                assert forall|m: int| 0 <= m < steps1.len() implies {
                    &&& #[trigger] steps1[m].start == step_pos(t, k0, steps1, m)
                    &&& list_cont(t, kind, steps1[m].start)
                    &&& list_item_ok(t, kind, i, steps1[m])
                } by {
                    if m < steps0.len() {
                        assert(steps1[m] == steps0[m]);
                        if m > 0 {
                            assert(steps1[m - 1] == steps0[m - 1]);
                        }
                        assert(steps0[m].start == step_pos(t, k0, steps0, m));
                    } else {
                        if m > 0 {
                            assert(steps1[m - 1] == steps0[m - 1]);
                        }
                    }
                }
                assert(items@ =~= step_results(steps1));
                assert(list_so_far(t, k0, self.offset() as int, kind, i, steps1, items@));
            }
        }
        let ghost kb = self.offset() as int;
        let ghost steps = choose|steps: Seq<BinderStep>|
            {
                &&& list_so_far(t, k0, kb, kind, i, steps, items@)
                &&& forall|j: int|
                    #![trigger flatten(steps)[j]]
                    0 <= j < flatten(steps).len() ==> exists|q: &mut Parser|
                        #![trigger term.ensures((q,), flatten(steps)[j].result)]
                        {
                            &&& q.text() == t
                            &&& q.offset() == flatten(steps)[j].start
                            &&& final(q).offset() == flatten(steps)[j].end
                            &&& term.ensures((q,), flatten(steps)[j].result)
                        }
            };
        let r = Ok(items);
        proof {
            assert(list_result(*old(self), *self, r, kind, i, flatten(steps), steps, BinderPhase::Ended(kb)));
        }
        r
    }

    /// A lambda or a `∀` at the cursor (see `binding_result`; the calls are
    /// ones that `term` can make).
    #[verifier::spinoff_prover]
    #[verifier::rlimit(60)]
    fn binding_term<F>(&mut self, kind: ListKind, term: F) -> (r: ParserResult<Syntax>) where
        F: Fn(&mut Parser) -> ParserResult<Syntax> + Copy,
        requires
            old(self).wf(),
            forall|q: &mut Parser| q.wf() ==> term.requires((q,)),
            forall|q: &mut Parser, x: ParserResult<Syntax>|
                term.ensures((q,), x) ==> {
                    &&& final(q).wf()
                    &&& final(q).text() == q.text()
                    &&& final(q).offset() >= q.offset()
                },
        ensures
            final(self).wf(),
            exists|calls: Seq<TermCall>, steps: Seq<BinderStep>, phase: BinderPhase|
                #![trigger binding_result(*old(self), *final(self), r, kind, calls, steps, phase)]
                {
                    &&& binding_result(*old(self), *final(self), r, kind, calls, steps, phase)
                    &&& forall|j: int|
                        #![trigger calls[j]]
                        0 <= j < calls.len() ==> exists|q: &mut Parser|
                            #![trigger term.ensures((q,), calls[j].result)]
                            {
                                &&& q.text() == old(self).text()
                                &&& q.offset() == calls[j].start
                                &&& final(q).offset() == calls[j].end
                                &&& term.ensures((q,), calls[j].result)
                            }
                },
    {
        proof {
            self.lemma_wf();
            reveal_strlit("fun");
            reveal_strlit("forall");
            reveal_strlit("=> or →");
        }
        let ghost t = self.text();
        let ghost i = self.offset() as int;
        let ghost none: Seq<TermCall> = Seq::empty();
        let ghost nosteps: Seq<BinderStep> = Seq::empty();
        let ghost anyphase = BinderPhase::Ended(0);
        let start = self.position();
        let sym = match self.peek() {
            Some(c) => match kind {
                ListKind::Lambda => c == 'λ' || c == '\\',
                ListKind::Forall => c == '∀',
            },
            None => false,
        };
        if sym {
            self.advance();
        } else {
            let kw = match kind {
                ListKind::Lambda => self.keyword("fun"),
                ListKind::Forall => self.keyword("forall"),
            };
            match kw {
                Ok(()) => {},
                Err(e) => {
                    proof { assert(binding_result(*old(self), *self, Err::<Syntax, Box<ParseError>>(e), kind, none, nosteps, anyphase)); }
                    return Err(e);
                },
            }
        }
        let ghost a = self.offset() as int;
        self.skip_whitespace();
        proof {
            lemma_trivia_end(t, a);
            self.lemma_wf();
        }
        let ghost p1 = *self;
        let res = self.binder_list(kind, start, Ghost(i), term);
        let ghost (bcalls, steps, phase) = choose|calls: Seq<TermCall>, steps: Seq<BinderStep>, phase: BinderPhase|
            {
                &&& list_result(p1, *self, res, kind, i, calls, steps, phase)
                &&& forall|j: int|
                    #![trigger calls[j]]
                    0 <= j < calls.len() ==> exists|q: &mut Parser|
                        #![trigger term.ensures((q,), calls[j].result)]
                        {
                            &&& q.text() == t
                            &&& q.offset() == calls[j].start
                            &&& final(q).offset() == calls[j].end
                            &&& term.ensures((q,), calls[j].result)
                        }
            };
        proof {
            self.lemma_wf();
            assert(bcalls.subrange(0, flatten(steps).len() as int) =~= flatten(steps));
        }
        let mut binders = match res {
            Ok(v) => v,
            Err(e) => {
                proof { assert(binding_result(*old(self), *self, Err::<Syntax, Box<ParseError>>(e), kind, bcalls, steps, phase)); }
                return Err(e);
            },
        };
        let ghost kb = self.offset() as int;
        proof { assert(bcalls.subrange(flatten(steps).len() as int, bcalls.len() as int) =~= none); }
        match kind {
            ListKind::Lambda => {
                if self.peek() == Some('=') && self.peek_nth(1) == Some('>') {
                    self.advance();
                    self.advance();
                } else if self.peek() == Some('→') {
                    self.advance();
                } else {
                    let e = ParseError::expected("=> or →", self.position());
                    proof { assert(binding_result(*old(self), *self, Err::<Syntax, Box<ParseError>>(e), kind, bcalls, steps, phase)); }
                    return Err(e);
                }
            },
            ListKind::Forall => {
                match self.expect_char(',') {
                    Ok(()) => {},
                    Err(e) => {
                        proof { assert(binding_result(*old(self), *self, Err::<Syntax, Box<ParseError>>(e), kind, bcalls, steps, phase)); }
                        return Err(e);
                    },
                }
            },
        }
        let ghost a2 = self.offset() as int;
        self.skip_whitespace();
        proof {
            lemma_trivia_end(t, a2);
            self.lemma_wf();
        }
        let ghost c = self.offset() as int;
        let resb = term(self);
        proof { self.lemma_wf(); }
        let ghost call = TermCall { start: c, end: self.offset() as int, result: resb };
        let ghost calls = bcalls.push(call);
        proof {
            assert(calls.subrange(0, flatten(steps).len() as int) =~= flatten(steps));
            assert(calls.subrange(flatten(steps).len() as int, calls.len() as int) =~= seq![call]);
            assert forall|jj: int| #![trigger calls[jj]] 0 <= jj < calls.len() implies exists|q: &mut Parser|
                #![trigger term.ensures((q,), calls[jj].result)]
                {
                    &&& q.text() == t
                    &&& q.offset() == calls[jj].start
                    &&& final(q).offset() == calls[jj].end
                    &&& term.ensures((q,), calls[jj].result)
                } by {
                if jj < bcalls.len() {
                    assert(calls[jj] == bcalls[jj]);
                }
            }
        }
        let body = match resb {
            Ok(x) => x,
            Err(e) => {
                proof { assert(binding_result(*old(self), *self, Err::<Syntax, Box<ParseError>>(e), kind, calls, steps, phase)); }
                return Err(e);
            },
        };
        let ghost gb = body;
        let ghost vb = binders@;
        binders.push(body);
        let ghost cs = binders@;
        let range = self.input().range_from(start);
        let node_kind = match kind {
            ListKind::Lambda => SyntaxKind::Lambda,
            ListKind::Forall => SyntaxKind::Forall,
        };
        let node = self.create_node(node_kind, range, binders);
        proof {
            assert(cs =~= step_results(steps).push(gb));
            assert(binding_result(*old(self), *self, Ok::<Syntax, Box<ParseError>>(node), kind, calls, steps, phase));
        }
        Ok(node)
    }

    /// `λ x (y : T) => body`, `fun x => body`, or a backslash for `λ`: a `Lambda`
    /// node whose children are the binders and the body (see
    /// `binding_result`; the calls are ones that `term` can make).
    pub fn lambda_term<F>(&mut self, term: F) -> (r: ParserResult<Syntax>) where
        F: Fn(&mut Parser) -> ParserResult<Syntax> + Copy,
        requires
            old(self).wf(),
            forall|q: &mut Parser| q.wf() ==> term.requires((q,)),
            forall|q: &mut Parser, x: ParserResult<Syntax>|
                term.ensures((q,), x) ==> {
                    &&& final(q).wf()
                    &&& final(q).text() == q.text()
                    &&& final(q).offset() >= q.offset()
                },
        ensures
            final(self).wf(),
            exists|calls: Seq<TermCall>, steps: Seq<BinderStep>, phase: BinderPhase|
                #![trigger binding_result(*old(self), *final(self), r, ListKind::Lambda, calls, steps, phase)]
                {
                    &&& binding_result(*old(self), *final(self), r, ListKind::Lambda, calls, steps, phase)
                    &&& forall|j: int|
                        #![trigger calls[j]]
                        0 <= j < calls.len() ==> exists|q: &mut Parser|
                            #![trigger term.ensures((q,), calls[j].result)]
                            {
                                &&& q.text() == old(self).text()
                                &&& q.offset() == calls[j].start
                                &&& final(q).offset() == calls[j].end
                                &&& term.ensures((q,), calls[j].result)
                            }
                },
    {
        self.binding_term(ListKind::Lambda, term)
    }

    /// `∀ x (y : T), body` or `forall x, body`: a `Forall` node whose children
    /// are the binders and the body (see `binding_result`; the calls are ones
    /// that `term` can make).
    pub fn forall_term<F>(&mut self, term: F) -> (r: ParserResult<Syntax>) where
        F: Fn(&mut Parser) -> ParserResult<Syntax> + Copy,
        requires
            old(self).wf(),
            forall|q: &mut Parser| q.wf() ==> term.requires((q,)),
            forall|q: &mut Parser, x: ParserResult<Syntax>|
                term.ensures((q,), x) ==> {
                    &&& final(q).wf()
                    &&& final(q).text() == q.text()
                    &&& final(q).offset() >= q.offset()
                },
        ensures
            final(self).wf(),
            exists|calls: Seq<TermCall>, steps: Seq<BinderStep>, phase: BinderPhase|
                #![trigger binding_result(*old(self), *final(self), r, ListKind::Forall, calls, steps, phase)]
                {
                    &&& binding_result(*old(self), *final(self), r, ListKind::Forall, calls, steps, phase)
                    &&& forall|j: int|
                        #![trigger calls[j]]
                        0 <= j < calls.len() ==> exists|q: &mut Parser|
                            #![trigger term.ensures((q,), calls[j].result)]
                            {
                                &&& q.text() == old(self).text()
                                &&& q.offset() == calls[j].start
                                &&& final(q).offset() == calls[j].end
                                &&& term.ensures((q,), calls[j].result)
                            }
                },
    {
        self.binding_term(ListKind::Forall, term)
    }
}

} // verus!
