//! Function application `f x y`: an atom with its projections, then more
//! of them as arguments, up to a keyword that ends the term or `:=`. The
//! atom parser and the test for a binary operator are given by the caller.
use vstd::prelude::*;
use crate::attributes::err_is;
use crate::error::{ParseError, ParserResult};
use crate::interpolation::TermCall;
use crate::parser::{Parser, keyword_at};
use crate::projections::{OpCall, ProjEnd, ProjStep, chain_matches, lemma_proj_chain_frame, proj_chain, projections_result};
use crate::scan::{lemma_trivia_end, trivia_end};
use crate::syntax::{range_at, Syntax, SyntaxKind};

verus! {

/// A keyword at `k` that ends an application (one that starts a clause of
/// a term, a statement of a `do` block or a command), or `:=`.
pub open spec fn app_stop_at(t: Seq<char>, k: int) -> bool {
    ||| keyword_at(t, k, "with"@)
    ||| keyword_at(t, k, "then"@)
    ||| keyword_at(t, k, "else"@)
    ||| keyword_at(t, k, "in"@)
    ||| keyword_at(t, k, "from"@)
    ||| keyword_at(t, k, "deriving"@)
    ||| keyword_at(t, k, "return"@)
    ||| keyword_at(t, k, "pure"@)
    ||| keyword_at(t, k, "let"@)
    ||| keyword_at(t, k, "for"@)
    ||| keyword_at(t, k, "def"@)
    ||| keyword_at(t, k, "theorem"@)
    ||| keyword_at(t, k, "axiom"@)
    ||| keyword_at(t, k, "constant"@)
    ||| keyword_at(t, k, "variable"@)
    ||| keyword_at(t, k, "instance"@)
    ||| keyword_at(t, k, "class"@)
    ||| keyword_at(t, k, "structure"@)
    ||| keyword_at(t, k, "inductive"@)
    ||| keyword_at(t, k, "import"@)
    ||| keyword_at(t, k, "namespace"@)
    ||| keyword_at(t, k, "section"@)
    ||| keyword_at(t, k, "end"@)
    ||| keyword_at(t, k, "open"@)
    ||| keyword_at(t, k, "universe"@)
    ||| (0 <= k && k + 1 < t.len() && t[k] == ':' && t[k + 1] == '=')
}

/// An argument of an application: an atom and the projections after it.
pub ghost struct AppArg {
    pub atom: Syntax,
    pub steps: Seq<ProjStep>,
}

/// How reading the arguments of an application ends.
pub ghost enum AppEnd {
    /// With these arguments, the cursor at the index given, and the calls
    /// of both kinds left.
    Done(Seq<AppArg>, int, Seq<TermCall>, Seq<OpCall>),
    /// The calls do not fit the text.
    Stuck,
}

/// The arguments of an application from `e`: whitespace and comments to
/// `k`; where a stopping keyword or `:=` stands there (see `app_stop_at`)
/// they end; else an atom read by the next atom call and its projections
/// (see `proj_chain`) make the next argument, tried from a saved position:
/// where either fails, the arguments end at `k`.
pub open spec fn app_args(t: Seq<char>, e: int, acalls: Seq<TermCall>, ocalls: Seq<OpCall>, args: Seq<AppArg>) -> AppEnd
    decreases t.len() - e,
{
    let k = trivia_end(t, e);
    if app_stop_at(t, k) {
        AppEnd::Done(args, k, acalls, ocalls)
    } else if acalls.len() == 0 || acalls[0].start != k {
        AppEnd::Stuck
    } else {
        match acalls[0].result {
            Err(_) => AppEnd::Done(args, k, acalls.drop_first(), ocalls),
            Ok(x) => match proj_chain(t, acalls[0].end, acalls.drop_first(), ocalls, Seq::empty()) {
                ProjEnd::Done(steps, e2, ar, or) => if e < e2 <= t.len() {
                    app_args(t, e2, ar, or, args.push(AppArg { atom: x, steps }))
                } else {
                    AppEnd::Stuck
                },
                ProjEnd::Fail(_, _) => AppEnd::Done(args, k, Seq::empty(), Seq::empty()),
                ProjEnd::Stuck => AppEnd::Stuck,
            },
        }
    }
}

/// The syntax `v` stands for the arguments `args`, one by one.
pub open spec fn args_match(v: Seq<Syntax>, args: Seq<AppArg>, t: Seq<char>) -> bool {
    &&& v.len() == args.len()
    &&& forall|m: int| 0 <= m < args.len() ==> #[trigger] chain_matches(v[m], args[m].atom, args[m].steps, t)
}

/// What `app_term` returns from `p`, given the calls of the atom parser and
/// of the operator test: an atom read by the first call and its
/// projections, then the arguments (see `app_args`). Without arguments the
/// result is the first term itself; else an `App` node of all of them,
/// spanning from the cursor to where the arguments ended.
pub open spec fn app_term_result(p: Parser, q: Parser, r: ParserResult<Syntax>, acalls: Seq<TermCall>, ocalls: Seq<OpCall>) -> bool {
    let t = p.text();
    let i = p.offset() as int;
    &&& q.text() == t
    &&& acalls.len() > 0
    &&& acalls[0].start == i
    &&& match acalls[0].result {
        Err(e) => acalls.len() == 1 && ocalls.len() == 0 && q.offset() == acalls[0].end && r == Err::<Syntax, Box<ParseError>>(e),
        Ok(x) => match proj_chain(t, acalls[0].end, acalls.drop_first(), ocalls, Seq::empty()) {
            ProjEnd::Fail(s, o) => q.offset() == o && (r matches Err(e) && err_is(*e, s, t, o)),
            ProjEnd::Done(steps, e, ar, or) => match app_args(t, e, ar, or, Seq::empty()) {
                AppEnd::Done(args, k, r1, r2) => {
                    &&& r1.len() == 0
                    &&& r2.len() == 0
                    &&& q.offset() == k
                    &&& r matches Ok(s) && if args.len() == 0 {
                        chain_matches(s, x, steps, t)
                    } else {
                        s matches Syntax::Node(n) && {
                            &&& n.kind == SyntaxKind::App
                            &&& n.range == range_at(t, i as nat, k as nat)
                            &&& n.children@.len() == args.len() + 1
                            &&& chain_matches(n.children@[0], x, steps, t)
                            &&& args_match(n.children@.drop_first(), args, t)
                        }
                    }
                },
                AppEnd::Stuck => false,
            },
            ProjEnd::Stuck => false,
        },
    }
}

/// The loop of `app_term` has read the arguments `args`, whose syntax is
/// `v`, with the calls given, and stands at `cur`: reading on from `e0`
/// with more calls goes on as reading from `cur` while `state` is 0; else
/// the arguments have ended at `cur`.
pub open spec fn app_state(
    t: Seq<char>,
    e0: int,
    cur: int,
    acalls: Seq<TermCall>,
    ocalls: Seq<OpCall>,
    args: Seq<AppArg>,
    v: Seq<Syntax>,
    state: u8,
) -> bool {
    &&& args_match(v, args, t)
    &&& if state == 0 {
        forall|ar: Seq<TermCall>, or: Seq<OpCall>|
            #![trigger app_args(t, e0, acalls + ar, ocalls + or, Seq::<AppArg>::empty())]
            app_args(t, e0, acalls + ar, ocalls + or, Seq::<AppArg>::empty()) == app_args(t, cur, ar, or, args)
    } else {
        app_args(t, e0, acalls, ocalls, Seq::<AppArg>::empty()) == AppEnd::Done(args, cur, Seq::empty(), Seq::empty())
    }
}

impl Parser {
    /// Does a keyword that ends an application, or `:=`, stand at the
    /// cursor (see `app_stop_at`)?
    pub fn at_app_stop(&self) -> (b: bool)
        requires
            self.wf(),
        ensures
            b == app_stop_at(self.text(), self.offset() as int),
    {
        proof {
            reveal_strlit("with");
            reveal_strlit("then");
            reveal_strlit("else");
            reveal_strlit("in");
            reveal_strlit("from");
            reveal_strlit("deriving");
            reveal_strlit("return");
            reveal_strlit("pure");
            reveal_strlit("let");
            reveal_strlit("for");
            reveal_strlit("def");
            reveal_strlit("theorem");
            reveal_strlit("axiom");
            reveal_strlit("constant");
            reveal_strlit("variable");
            reveal_strlit("instance");
            reveal_strlit("class");
            reveal_strlit("structure");
            reveal_strlit("inductive");
            reveal_strlit("import");
            reveal_strlit("namespace");
            reveal_strlit("section");
            reveal_strlit("end");
            reveal_strlit("open");
            reveal_strlit("universe");
            self.lemma_wf();
        }
        self.peek_keyword("with") || self.peek_keyword("then") || self.peek_keyword("else")
            || self.peek_keyword("in") || self.peek_keyword("from") || self.peek_keyword("deriving")
            || self.peek_keyword("return") || self.peek_keyword("pure") || self.peek_keyword("let")
            || self.peek_keyword("for") || self.peek_keyword("def") || self.peek_keyword("theorem")
            || self.peek_keyword("axiom") || self.peek_keyword("constant") || self.peek_keyword("variable")
            || self.peek_keyword("instance") || self.peek_keyword("class") || self.peek_keyword("structure")
            || self.peek_keyword("inductive") || self.peek_keyword("import") || self.peek_keyword("namespace")
            || self.peek_keyword("section") || self.peek_keyword("end") || self.peek_keyword("open")
            || self.peek_keyword("universe") || (self.peek() == Some(':') && self.peek_nth(1) == Some('='))
    }

    /// An application at the cursor (see `app_term_result`; the atom calls
    /// are ones that `atom` can make, the operator calls answers that
    /// `binop` can give). `atom` must consume something where it succeeds
    /// and leave the saved positions as they were.
    #[verifier::spinoff_prover]
    #[verifier::rlimit(100)]
    pub fn app_term<A, B>(&mut self, atom: A, binop: B) -> (r: ParserResult<Syntax>) where
        A: Fn(&mut Parser) -> ParserResult<Syntax> + Copy,
        B: Fn(&Parser) -> bool + Copy,
        requires
            old(self).wf(),
            forall|q: &mut Parser| q.wf() ==> atom.requires((q,)),
            forall|q: &mut Parser, x: ParserResult<Syntax>|
                atom.ensures((q,), x) ==> {
                    &&& final(q).wf()
                    &&& final(q).text() == q.text()
                    &&& final(q).offset() >= q.offset()
                    &&& final(q).saved() == q.saved()
                    &&& x is Ok ==> final(q).offset() > q.offset()
                },
            forall|q: &Parser| q.wf() ==> binop.requires((q,)),
        ensures
            final(self).wf(),
            exists|acalls: Seq<TermCall>, ocalls: Seq<OpCall>|
                #![trigger app_term_result(*old(self), *final(self), r, acalls, ocalls)]
                {
                    &&& app_term_result(*old(self), *final(self), r, acalls, ocalls)
                    &&& forall|j: int|
                        #![trigger acalls[j]]
                        0 <= j < acalls.len() ==> exists|q: &mut Parser|
                            #![trigger atom.ensures((q,), acalls[j].result)]
                            {
                                &&& q.text() == old(self).text()
                                &&& q.offset() == acalls[j].start
                                &&& final(q).offset() == acalls[j].end
                                &&& atom.ensures((q,), acalls[j].result)
                            }
                    &&& forall|j: int|
                        #![trigger ocalls[j]]
                        0 <= j < ocalls.len() ==> {
                            &&& ocalls[j].asked.text() == old(self).text()
                            &&& ocalls[j].asked.offset() == ocalls[j].at
                            &&& binop.ensures((&ocalls[j].asked,), ocalls[j].answer)
                        }
                },
    {
        proof { self.lemma_wf(); }
        let ghost t = self.text();
        let ghost i = self.offset() as int;
        let start = self.position();
        let first_res = atom(self);
        proof { self.lemma_wf(); }
        let ghost first_call = TermCall { start: i, end: self.offset() as int, result: first_res };
        let x = match first_res {
            Ok(x) => x,
            Err(e) => {
                proof {
                    assert(app_term_result(*old(self), *self, Err::<Syntax, Box<ParseError>>(e), seq![first_call], Seq::<OpCall>::empty()));
                }
                return Err(e);
            },
        };
        let ghost gx = x;
        let ghost p1 = *self;
        let left_res = self.parse_projections(x, atom, binop);
        let ghost (ac1, oc1) = choose|ac: Seq<TermCall>, oc: Seq<OpCall>|
            {
                &&& projections_result(p1, *self, left_res, gx, ac, oc)
                &&& forall|j: int|
                    #![trigger ac[j]]
                    0 <= j < ac.len() ==> exists|q: &mut Parser|
                        #![trigger atom.ensures((q,), ac[j].result)]
                        {
                            &&& q.text() == t
                            &&& q.offset() == ac[j].start
                            &&& final(q).offset() == ac[j].end
                            &&& atom.ensures((q,), ac[j].result)
                        }
                &&& forall|j: int|
                    #![trigger oc[j]]
                    0 <= j < oc.len() ==> {
                        &&& oc[j].asked.text() == t
                        &&& oc[j].asked.offset() == oc[j].at
                        &&& binop.ensures((&oc[j].asked,), oc[j].answer)
                    }
            };
        let ghost acalls1 = seq![first_call] + ac1;
        proof {
            self.lemma_wf();
            assert(acalls1[0] == first_call);
            assert(acalls1.drop_first() =~= ac1);
            assert forall|jj: int| #![trigger acalls1[jj]] 0 <= jj < acalls1.len() implies exists|q: &mut Parser|
                #![trigger atom.ensures((q,), acalls1[jj].result)]
                {
                    &&& q.text() == t
                    &&& q.offset() == acalls1[jj].start
                    &&& final(q).offset() == acalls1[jj].end
                    &&& atom.ensures((q,), acalls1[jj].result)
                } by {
                if jj > 0 {
                    assert(acalls1[jj] == ac1[jj - 1]);
                }
            }
        }
        let left = match left_res {
            Ok(l) => l,
            Err(e) => {
                proof {
                    assert(app_term_result(*old(self), *self, Err::<Syntax, Box<ParseError>>(e), acalls1, oc1));
                }
                return Err(e);
            },
        };
        let ghost e0 = self.offset() as int;
        let ghost steps1 = match proj_chain(t, first_call.end, ac1, oc1, Seq::empty()) {
            ProjEnd::Done(steps, _, _, _) => steps,
            _ => arbitrary(),
        };
        let ghost gleft = left;
        let mut terms: Vec<Syntax> = Vec::new();
        let mut state: u8 = 0;
        proof {
            let none_a = Seq::<TermCall>::empty();
            let none_o = Seq::<OpCall>::empty();
            assert forall|ar: Seq<TermCall>, or: Seq<OpCall>|
                #![trigger app_args(t, e0, none_a + ar, none_o + or, Seq::<AppArg>::empty())]
                app_args(t, e0, none_a + ar, none_o + or, Seq::<AppArg>::empty())
                    == app_args(t, e0, ar, or, Seq::<AppArg>::empty()) by {
                assert(none_a + ar =~= ar);
                assert(none_o + or =~= or);
            }
            assert(app_state(t, e0, e0, none_a, none_o, Seq::empty(), terms@, 0));
        }
        while state == 0
            invariant
                self.wf(),
                t == self.text(),
                e0 <= self.offset() <= t.len(),
                state <= 1,
                forall|q: &mut Parser| q.wf() ==> atom.requires((q,)),
                forall|q: &mut Parser, x: ParserResult<Syntax>|
                    atom.ensures((q,), x) ==> {
                        &&& final(q).wf()
                        &&& final(q).text() == q.text()
                        &&& final(q).offset() >= q.offset()
                        &&& final(q).saved() == q.saved()
                        &&& x is Ok ==> final(q).offset() > q.offset()
                    },
                forall|q: &Parser| q.wf() ==> binop.requires((q,)),
                exists|acalls: Seq<TermCall>, ocalls: Seq<OpCall>, args: Seq<AppArg>|
                    #![trigger app_state(t, e0, self.offset() as int, acalls, ocalls, args, terms@, state)]
                    {
                        &&& app_state(t, e0, self.offset() as int, acalls, ocalls, args, terms@, state)
                        &&& forall|j: int|
                            #![trigger acalls[j]]
                            0 <= j < acalls.len() ==> exists|q: &mut Parser|
                                #![trigger atom.ensures((q,), acalls[j].result)]
                                {
                                    &&& q.text() == t
                                    &&& q.offset() == acalls[j].start
                                    &&& final(q).offset() == acalls[j].end
                                    &&& atom.ensures((q,), acalls[j].result)
                                }
                        &&& forall|j: int|
                            #![trigger ocalls[j]]
                            0 <= j < ocalls.len() ==> {
                                &&& ocalls[j].asked.text() == t
                                &&& ocalls[j].asked.offset() == ocalls[j].at
                                &&& binop.ensures((&ocalls[j].asked,), ocalls[j].answer)
                            }
                    },
            decreases t.len() - self.offset(), if state == 0 { 1int } else { 0int },
        {
            proof { self.lemma_wf(); }
            let ghost e = self.offset() as int;
            let ghost v0 = terms@;
            let ghost (ac0, oc0, args0) = choose|acalls: Seq<TermCall>, ocalls: Seq<OpCall>, args: Seq<AppArg>|
                {
                    &&& app_state(t, e0, e, acalls, ocalls, args, v0, 0)
                    &&& forall|j: int|
                        #![trigger acalls[j]]
                        0 <= j < acalls.len() ==> exists|q: &mut Parser|
                            #![trigger atom.ensures((q,), acalls[j].result)]
                            {
                                &&& q.text() == t
                                &&& q.offset() == acalls[j].start
                                &&& final(q).offset() == acalls[j].end
                                &&& atom.ensures((q,), acalls[j].result)
                            }
                    &&& forall|j: int|
                        #![trigger ocalls[j]]
                        0 <= j < ocalls.len() ==> {
                            &&& ocalls[j].asked.text() == t
                            &&& ocalls[j].asked.offset() == ocalls[j].at
                            &&& binop.ensures((&ocalls[j].asked,), ocalls[j].answer)
                        }
                };
            self.skip_whitespace();
            proof {
                lemma_trivia_end(t, e);
                self.lemma_wf();
            }
            let ghost k = self.offset() as int;
            if self.at_app_stop() {
                state = 1;
                proof {
                    assert(ac0 + Seq::<TermCall>::empty() =~= ac0);
                    assert(oc0 + Seq::<OpCall>::empty() =~= oc0);
                    assert(app_args(t, e0, ac0 + Seq::<TermCall>::empty(), oc0 + Seq::<OpCall>::empty(), Seq::<AppArg>::empty())
                        == app_args(t, e, Seq::<TermCall>::empty(), Seq::<OpCall>::empty(), args0));
                    assert(app_state(t, e0, k, ac0, oc0, args0, terms@, 1));
                }
            } else {
                self.save_position();
                let res = atom(self);
                proof { self.lemma_wf(); }
                let ghost call = TermCall { start: k, end: self.offset() as int, result: res };
                let ghost acp = ac0.push(call);
                proof {
                    assert forall|jj: int| #![trigger acp[jj]] 0 <= jj < acp.len() implies exists|q: &mut Parser|
                        #![trigger atom.ensures((q,), acp[jj].result)]
                        {
                            &&& q.text() == t
                            &&& q.offset() == acp[jj].start
                            &&& final(q).offset() == acp[jj].end
                            &&& atom.ensures((q,), acp[jj].result)
                        } by {
                        if jj < ac0.len() {
                            assert(acp[jj] == ac0[jj]);
                        }
                    }
                }
                match res {
                    Err(_) => {
                        self.restore_position();
                        state = 1;
                        proof {
                            assert(ac0 + seq![call] =~= acp);
                            assert(oc0 + Seq::<OpCall>::empty() =~= oc0);
                            assert(seq![call].drop_first() =~= Seq::<TermCall>::empty());
                            assert(app_args(t, e0, ac0 + seq![call], oc0 + Seq::<OpCall>::empty(), Seq::<AppArg>::empty())
                                == app_args(t, e, seq![call], Seq::<OpCall>::empty(), args0));
                            assert(app_state(t, e0, k, acp, oc0, args0, terms@, 1));
                        }
                    },
                    Ok(a) => {
                        let ghost ga = a;
                        let ghost p2 = *self;
                        let pr = self.parse_projections(a, atom, binop);
                        let ghost (ac2, oc2) = choose|ac: Seq<TermCall>, oc: Seq<OpCall>|
                            {
                                &&& projections_result(p2, *self, pr, ga, ac, oc)
                                &&& forall|j: int|
                                    #![trigger ac[j]]
                                    0 <= j < ac.len() ==> exists|q: &mut Parser|
                                        #![trigger atom.ensures((q,), ac[j].result)]
                                        {
                                            &&& q.text() == t
                                            &&& q.offset() == ac[j].start
                                            &&& final(q).offset() == ac[j].end
                                            &&& atom.ensures((q,), ac[j].result)
                                        }
                                &&& forall|j: int|
                                    #![trigger oc[j]]
                                    0 <= j < oc.len() ==> {
                                        &&& oc[j].asked.text() == t
                                        &&& oc[j].asked.offset() == oc[j].at
                                        &&& binop.ensures((&oc[j].asked,), oc[j].answer)
                                    }
                            };
                        let ghost acn = acp + ac2;
                        let ghost ocn = oc0 + oc2;
                        proof {
                            self.lemma_wf();
                            assert forall|jj: int| #![trigger acn[jj]] 0 <= jj < acn.len() implies exists|q: &mut Parser|
                                #![trigger atom.ensures((q,), acn[jj].result)]
                                {
                                    &&& q.text() == t
                                    &&& q.offset() == acn[jj].start
                                    &&& final(q).offset() == acn[jj].end
                                    &&& atom.ensures((q,), acn[jj].result)
                                } by {
                                if jj < acp.len() {
                                    assert(acn[jj] == acp[jj]);
                                } else {
                                    assert(acn[jj] == ac2[jj - acp.len()]);
                                }
                            }
                            assert forall|jj: int| #![trigger ocn[jj]] 0 <= jj < ocn.len() implies {
                                &&& ocn[jj].asked.text() == t
                                &&& ocn[jj].asked.offset() == ocn[jj].at
                                &&& binop.ensures((&ocn[jj].asked,), ocn[jj].answer)
                            } by {
                                if jj < oc0.len() {
                                    assert(ocn[jj] == oc0[jj]);
                                } else {
                                    assert(ocn[jj] == oc2[jj - oc0.len()]);
                                }
                            }
                            assert(ac0 + (seq![call] + ac2) =~= acn);
                            assert((seq![call] + ac2)[0] == call);
                            assert((seq![call] + ac2).drop_first() =~= ac2);
                        }
                        match pr {
                            Err(_) => {
                                self.restore_position();
                                state = 1;
                                proof {
                                    assert(app_args(t, e0, ac0 + (seq![call] + ac2), oc0 + oc2, Seq::<AppArg>::empty())
                                        == app_args(t, e, seq![call] + ac2, oc2, args0));
                                    assert(app_state(t, e0, k, acn, ocn, args0, terms@, 1));
                                }
                            },
                            Ok(arg) => {
                                self.commit_position();
                                terms.push(arg);
                                let ghost e2 = self.offset() as int;
                                let ghost steps = match proj_chain(t, call.end, ac2, oc2, Seq::empty()) {
                                    ProjEnd::Done(steps, _, _, _) => steps,
                                    _ => arbitrary(),
                                };
                                let ghost args1 = args0.push(AppArg { atom: ga, steps });
                                proof {
                                    assert forall|m: int| 0 <= m < args1.len() implies #[trigger] chain_matches(terms@[m], args1[m].atom, args1[m].steps, t) by {
                                        if m < args0.len() {
                                            assert(chain_matches(v0[m], args0[m].atom, args0[m].steps, t));
                                        }
                                    }
                                    assert forall|ar: Seq<TermCall>, or: Seq<OpCall>|
                                        #![trigger app_args(t, e0, acn + ar, ocn + or, Seq::<AppArg>::empty())]
                                        app_args(t, e0, acn + ar, ocn + or, Seq::<AppArg>::empty())
                                            == app_args(t, e2, ar, or, args1) by {
                                        assert(ac0 + (seq![call] + ac2 + ar) =~= acn + ar);
                                        assert(oc0 + (oc2 + or) =~= ocn + or);
                                        assert((seq![call] + ac2 + ar)[0] == call);
                                        assert((seq![call] + ac2 + ar).drop_first() =~= ac2 + ar);
                                        lemma_proj_chain_frame(t, call.end, ac2, oc2, Seq::empty(), ar, or);
                                        assert(app_args(t, e0, ac0 + (seq![call] + ac2 + ar), oc0 + (oc2 + or), Seq::<AppArg>::empty())
                                            == app_args(t, e, seq![call] + ac2 + ar, oc2 + or, args0));
                                    }
                                    assert(app_state(t, e0, e2, acn, ocn, args1, terms@, 0));
                                }
                            },
                        }
                    },
                }
            }
        }
        let ghost k = self.offset() as int;
        let ghost (acl, ocl, argsl) = choose|acalls: Seq<TermCall>, ocalls: Seq<OpCall>, args: Seq<AppArg>|
            {
                &&& app_state(t, e0, k, acalls, ocalls, args, terms@, 1)
                &&& forall|j: int|
                    #![trigger acalls[j]]
                    0 <= j < acalls.len() ==> exists|q: &mut Parser|
                        #![trigger atom.ensures((q,), acalls[j].result)]
                        {
                            &&& q.text() == t
                            &&& q.offset() == acalls[j].start
                            &&& final(q).offset() == acalls[j].end
                            &&& atom.ensures((q,), acalls[j].result)
                        }
                &&& forall|j: int|
                    #![trigger ocalls[j]]
                    0 <= j < ocalls.len() ==> {
                        &&& ocalls[j].asked.text() == t
                        &&& ocalls[j].asked.offset() == ocalls[j].at
                        &&& binop.ensures((&ocalls[j].asked,), ocalls[j].answer)
                    }
            };
        let ghost all_a = acalls1 + acl;
        let ghost all_o = oc1 + ocl;
        proof {
            lemma_proj_chain_frame(t, first_call.end, ac1, oc1, Seq::empty(), acl, ocl);
            assert(all_a[0] == first_call);
            assert(all_a.drop_first() =~= ac1 + acl);
            assert(Seq::<TermCall>::empty() + acl =~= acl);
            assert(Seq::<OpCall>::empty() + ocl =~= ocl);
            assert forall|jj: int| #![trigger all_a[jj]] 0 <= jj < all_a.len() implies exists|q: &mut Parser|
                #![trigger atom.ensures((q,), all_a[jj].result)]
                {
                    &&& q.text() == t
                    &&& q.offset() == all_a[jj].start
                    &&& final(q).offset() == all_a[jj].end
                    &&& atom.ensures((q,), all_a[jj].result)
                } by {
                if jj < acalls1.len() {
                    assert(all_a[jj] == acalls1[jj]);
                } else {
                    assert(all_a[jj] == acl[jj - acalls1.len()]);
                }
            }
            assert forall|jj: int| #![trigger all_o[jj]] 0 <= jj < all_o.len() implies {
                &&& all_o[jj].asked.text() == t
                &&& all_o[jj].asked.offset() == all_o[jj].at
                &&& binop.ensures((&all_o[jj].asked,), all_o[jj].answer)
            } by {
                if jj < oc1.len() {
                    assert(all_o[jj] == oc1[jj]);
                } else {
                    assert(all_o[jj] == ocl[jj - oc1.len()]);
                }
            }
        }
        if terms.len() == 0 {
            let r = Ok(left);
            proof { assert(app_term_result(*old(self), *self, r, all_a, all_o)); }
            return r;
        }
        let range = self.input().range_from(start);
        let ghost rest_terms = terms@;
        let mut children: Vec<Syntax> = Vec::new();
        children.push(left);
        children.append(&mut terms);
        proof {
            assert(children@.drop_first() =~= rest_terms);
        }
        let node = self.create_node(SyntaxKind::App, range, children);
        proof { assert(app_term_result(*old(self), *self, Ok::<Syntax, Box<ParseError>>(node), all_a, all_o)); }
        Ok(node)
    }
}

} // verus!
