//! `do` blocks: statements (`let`, `return`, `pure`, `for`, binds and plain
//! terms) separated by new lines or `;`, up to where the block ends.
use vstd::prelude::*;
use crate::attributes::{Lex, err_is, ident_lex};
use crate::declarations::{BinderPhase, BinderStep, flatten, is_name_atom, node_of, step_results};
use crate::error::{ParseError, ParserResult, is_expected};
use crate::expressions::{do_expr_result, do_let_result, pure_result, return_result};
use crate::interpolation::TermCall;
use crate::parser::{Parser, keyword_at, lemma_ident_at};
use crate::projections::OpCall;
use crate::scan::{lemma_trivia_end, trivia_end};
use crate::syntax::{pos_at, range_at, Syntax, SyntaxKind};
use crate::tactics::keyword_missing;

verus! {

/// What `do_for_stmt` returns from `p`, given the calls of the term parser:
/// `for`, whitespace and comments, an identifier, whitespace and comments,
/// `in`, whitespace and comments, a collection read by the first call,
/// whitespace and comments, `do`, whitespace and comments, and the body: at
/// `{` a nested `do` block, which fails there for want of `do`; else an
/// expression statement (see `do_expr_result`). A `Do` node whose children
/// are the name, the collection and the body.
pub open spec fn for_result(p: Parser, q: Parser, r: ParserResult<Syntax>, calls: Seq<TermCall>) -> bool {
    let t = p.text();
    let i = p.offset() as int;
    let j = trivia_end(t, i + 3);
    &&& q.text() == t
    &&& if !keyword_at(t, i, "for"@) {
        calls.len() == 0 && keyword_missing(p, q, r, "for"@)
    } else {
        match ident_lex(t, j) {
            Lex::Token(name, e) => {
                let s1 = trivia_end(t, e);
                if !keyword_at(t, s1, "in"@) {
                    &&& calls.len() == 0
                    &&& q.offset() == s1
                    &&& r matches Err(err) && is_expected(*err, "keyword 'in'"@, pos_at(t, s1 as nat))
                } else if calls.len() == 0 || calls[0].start != trivia_end(t, s1 + 2) {
                    false
                } else {
                    match calls[0].result {
                        Err(err) => calls.len() == 1 && q.offset() == calls[0].end && r == Err::<Syntax, Box<ParseError>>(err),
                        Ok(coll) => {
                            let w = trivia_end(t, calls[0].end);
                            let b = trivia_end(t, w + 2);
                            if !keyword_at(t, w, "do"@) {
                                &&& calls.len() == 1
                                &&& q.offset() == w
                                &&& r matches Err(err) && is_expected(*err, "keyword 'do'"@, pos_at(t, w as nat))
                            } else if 0 <= b < t.len() && t[b] == '{' {
                                &&& calls.len() == 1
                                &&& q.offset() == b
                                &&& r matches Err(err) && is_expected(*err, "keyword 'do'"@, pos_at(t, b as nat))
                            } else {
                                exists|pb: Parser, rb: ParserResult<Syntax>|
                                    #[trigger] do_expr_result(pb, q, rb, calls.drop_first()) && pb.text() == t && pb.offset() == b && match rb {
                                        Err(err) => r == Err::<Syntax, Box<ParseError>>(err),
                                        Ok(body) => r matches Ok(x) && x matches Syntax::Node(nd) && {
                                            &&& nd.kind == SyntaxKind::Do
                                            &&& nd.range == range_at(t, i as nat, q.offset() as nat)
                                            &&& nd.children@.len() == 3
                                            &&& is_name_atom(nd.children@[0], t, j, e, name)
                                            &&& nd.children@[1] == coll
                                            &&& nd.children@[2] == body
                                        },
                                    }
                            }
                        },
                    }
                }
            },
            Lex::Fail(s, o) => calls.len() == 0 && q.offset() == o && (r matches Err(err) && err_is(*err, s, t, o)),
            Lex::Paren => false,
        }
    }
}

/// One statement of a `do` block read from `b`, by the keyword that leads
/// it: `let`, `return`, `pure` or `for`; else an expression statement.
pub open spec fn stmt_rel(b: Parser, q: Parser, r: ParserResult<Syntax>, calls: Seq<TermCall>) -> bool {
    let t = b.text();
    let k = b.offset() as int;
    if keyword_at(t, k, "let"@) {
        do_let_result(b, q, r, calls)
    } else if keyword_at(t, k, "return"@) {
        return_result(b, q, r, calls)
    } else if keyword_at(t, k, "pure"@) {
        pure_result(b, q, r, calls)
    } else if keyword_at(t, k, "for"@) {
        for_result(b, q, r, calls)
    } else {
        do_expr_result(b, q, r, calls)
    }
}

/// The step is a statement (see `stmt_rel`).
pub open spec fn stmt_ok(t: Seq<char>, st: BinderStep) -> bool {
    exists|b: Parser, q: Parser|
        #[trigger] stmt_rel(b, q, Ok::<Syntax, Box<ParseError>>(st.result), st.calls) && b.text() == t && b.offset() == st.start
            && q.offset() == st.end
}

/// Where the cursor stands after a statement that ended at `end`:
/// whitespace and comments, and, where `;` stands there, it and
/// whitespace and comments.
pub open spec fn after_stmt(t: Seq<char>, end: int) -> int {
    let w = trivia_end(t, end);
    if 0 <= w < t.len() && t[w] == ';' {
        trivia_end(t, w + 1)
    } else {
        w
    }
}

/// Where the block is asked whether it ends before statement `m` of
/// `steps`: after whitespace and comments from `k0`, or from where the
/// statement before left the cursor (see `after_stmt`).
pub open spec fn do_pos(t: Seq<char>, k0: int, steps: Seq<BinderStep>, m: int) -> int {
    if m == 0 {
        trivia_end(t, k0)
    } else {
        trivia_end(t, after_stmt(t, steps[m - 1].end))
    }
}

/// The statements of a block from `k0`: before each, and before the end,
/// the block was asked whether it ends (the calls `ocalls`), and said no
/// but at the end; each statement starts where it was asked; ended as
/// `phase` says.
pub open spec fn do_valid(t: Seq<char>, k0: int, steps: Seq<BinderStep>, ocalls: Seq<OpCall>, phase: BinderPhase) -> bool {
    let n = steps.len() as int;
    &&& forall|m: int|
        0 <= m < n ==> {
            &&& #[trigger] steps[m].start == do_pos(t, k0, steps, m)
            &&& stmt_ok(t, steps[m])
        }
    &&& ocalls.len() == n + 1
    &&& forall|m: int| 0 <= m <= n ==> (#[trigger] ocalls[m]).at == do_pos(t, k0, steps, m)
    &&& forall|m: int| 0 <= m < n ==> !(#[trigger] ocalls[m]).answer
    &&& match phase {
        BinderPhase::Ended(kb) => kb == do_pos(t, k0, steps, n) && ocalls[n].answer,
        BinderPhase::Failed(st, cs, err, at) => {
            &&& !ocalls[n].answer
            &&& st == do_pos(t, k0, steps, n)
            &&& exists|b: Parser, q: Parser|
                #[trigger] stmt_rel(b, q, Err::<Syntax, Box<ParseError>>(err), cs) && b.text() == t && b.offset() == st
                    && q.offset() == at
        },
    }
}

/// What `do_term` returns from `p`, given the calls of the term parser and
/// of the block-end test and the statements read: `do`, whitespace and
/// comments, and the statements (see `do_valid`); a `Do` node whose
/// children are the statements, spanning to where the block ended.
pub open spec fn do_result(
    p: Parser,
    q: Parser,
    r: ParserResult<Syntax>,
    calls: Seq<TermCall>,
    ocalls: Seq<OpCall>,
    steps: Seq<BinderStep>,
    phase: BinderPhase,
) -> bool {
    let t = p.text();
    let i = p.offset() as int;
    &&& q.text() == t
    &&& if !keyword_at(t, i, "do"@) {
        calls.len() == 0 && ocalls.len() == 0 && keyword_missing(p, q, r, "do"@)
    } else {
        &&& do_valid(t, trivia_end(t, i + 2), steps, ocalls, phase)
        &&& match phase {
            BinderPhase::Ended(kb) => {
                &&& calls == flatten(steps)
                &&& q.offset() == kb
                &&& node_of(r, t, i, kb, SyntaxKind::Do, step_results(steps))
            },
            BinderPhase::Failed(_, cs, err, at) => {
                &&& calls == flatten(steps) + cs
                &&& q.offset() == at
                &&& r == Err::<Syntax, Box<ParseError>>(err)
            },
        }
    }
}


/// The statements `steps` of a block from `k0` were read, the block asked
/// before each (`ocalls`) whether it ends, and the cursor stands at `k`
/// after them (see `after_stmt`); `v` is their syntax.
pub open spec fn do_so_far(t: Seq<char>, k0: int, steps: Seq<BinderStep>, ocalls: Seq<OpCall>, k: int, v: Seq<Syntax>) -> bool {
    let n = steps.len() as int;
    &&& forall|m: int|
        0 <= m < n ==> {
            &&& #[trigger] steps[m].start == do_pos(t, k0, steps, m)
            &&& stmt_ok(t, steps[m])
        }
    &&& ocalls.len() == n
    &&& forall|m: int| 0 <= m < n ==> (#[trigger] ocalls[m]).at == do_pos(t, k0, steps, m)
    &&& forall|m: int| 0 <= m < n ==> !(#[trigger] ocalls[m]).answer
    &&& k == if n == 0 { k0 } else { after_stmt(t, steps[n - 1].end) }
    &&& v == step_results(steps)
}

impl Parser {
    /// `for x in xs do body` in a `do` block (see `for_result`; the calls are
    /// ones that `term` can make).
    #[verifier::spinoff_prover]
    #[verifier::rlimit(100)]
    pub fn do_for_stmt<F, E>(&mut self, term: F, block_end: E) -> (r: ParserResult<Syntax>) where
        F: Fn(&mut Parser) -> ParserResult<Syntax> + Copy,
        E: Fn(&Parser) -> bool + Copy,
        requires
            old(self).wf(),
            forall|q: &mut Parser| q.wf() ==> term.requires((q,)),
            forall|q: &mut Parser, x: ParserResult<Syntax>|
                term.ensures((q,), x) ==> {
                    &&& final(q).wf()
                    &&& final(q).text() == q.text()
                    &&& final(q).offset() >= q.offset()
                    &&& final(q).saved() == q.saved()
                    &&& x is Ok ==> final(q).offset() > q.offset()
                },
            forall|q: &Parser| q.wf() ==> block_end.requires((q,)),
        ensures
            final(self).wf(),
            r is Ok ==> final(self).offset() > old(self).offset(),
            exists|calls: Seq<TermCall>|
                #![trigger for_result(*old(self), *final(self), r, calls)]
                {
                    &&& for_result(*old(self), *final(self), r, calls)
                    &&& forall|j: int|
                        #![trigger calls[j]]
                        0 <= j < calls.len() ==> exists|q: &mut Parser|
                            #![trigger term.ensures((q,), calls[j].result)]
                            {
                                &&& q.text() == old(self).text()
                                &&& q.offset() == calls[j].start
                                &&& final(q).offset() == calls[j].end
                                &&& term.ensures((q,), calls[j].result)
                            }
                },
        decreases old(self).text().len() - old(self).offset(), 0int,
    {
        proof {
            self.lemma_wf();
            reveal_strlit("for");
            reveal_strlit("in");
            reveal_strlit("do");
            reveal_strlit("keyword '");
            reveal_strlit("'");
            reveal_strlit("keyword 'in'");
            reveal_strlit("keyword 'do'");
            assert("keyword '"@ + "in"@ + "'"@ =~= "keyword 'in'"@);
            assert("keyword '"@ + "do"@ + "'"@ =~= "keyword 'do'"@);
        }
        let ghost t = self.text();
        let ghost i = self.offset() as int;
        let ghost none: Seq<TermCall> = Seq::empty();
        let start = self.position();
        match self.keyword("for") {
            Ok(()) => {},
            Err(e) => {
                proof { assert(for_result(*old(self), *self, Err::<Syntax, Box<ParseError>>(e), none)); }
                return Err(e);
            },
        }
        self.skip_whitespace();
        proof {
            lemma_trivia_end(t, i + 3);
            self.lemma_wf();
        }
        let ghost j = self.offset() as int;
        let pattern = match self.identifier() {
            Ok(n) => n,
            Err(e) => {
                proof { assert(for_result(*old(self), *self, Err::<Syntax, Box<ParseError>>(e), none)); }
                return Err(e);
            },
        };
        proof {
            lemma_ident_at(t, j);
            self.lemma_wf();
        }
        let ghost e = self.offset() as int;
        self.skip_whitespace();
        proof {
            lemma_trivia_end(t, e);
            self.lemma_wf();
        }
        let ghost s1 = self.offset() as int;
        match self.keyword("in") {
            Ok(()) => {},
            Err(err) => {
                proof { assert(for_result(*old(self), *self, Err::<Syntax, Box<ParseError>>(err), none)); }
                return Err(err);
            },
        }
        self.skip_whitespace();
        proof {
            lemma_trivia_end(t, s1 + 2);
            self.lemma_wf();
        }
        let ghost c = self.offset() as int;
        let res = term(self);
        proof { self.lemma_wf(); }
        let ghost call0 = TermCall { start: c, end: self.offset() as int, result: res };
        let ghost calls0 = seq![call0];
        let coll = match res {
            Ok(x) => x,
            Err(err) => {
                proof { assert(for_result(*old(self), *self, Err::<Syntax, Box<ParseError>>(err), calls0)); }
                return Err(err);
            },
        };
        let ghost e0 = self.offset() as int;
        self.skip_whitespace();
        proof {
            lemma_trivia_end(t, e0);
            self.lemma_wf();
        }
        let ghost w = self.offset() as int;
        match self.keyword("do") {
            Ok(()) => {},
            Err(err) => {
                proof { assert(for_result(*old(self), *self, Err::<Syntax, Box<ParseError>>(err), calls0)); }
                return Err(err);
            },
        }
        self.skip_whitespace();
        proof {
            lemma_trivia_end(t, w + 2);
            self.lemma_wf();
        }
        let ghost b = self.offset() as int;
        let ghost pb = *self;
        let body = if self.peek() == Some('{') {
            proof {
                if keyword_at(t, b, "do"@) {
                    assert(t.subrange(b, b + 2)[0] == t[b]);
                    assert("do"@[0] == 'd');
                }
            }
            let rb = self.do_term(term, block_end);
            proof {
                let (cs, ocs, st, ph) = choose|cs: Seq<TermCall>, ocs: Seq<OpCall>, st: Seq<BinderStep>, ph: BinderPhase|
                    do_result(pb, *self, rb, cs, ocs, st, ph);
                assert(!keyword_at(t, b, "do"@));
            }
            match rb {
                Ok(x) => {
                    proof { assert(false); }
                    x
                },
                Err(err) => {
                    proof { assert(for_result(*old(self), *self, Err::<Syntax, Box<ParseError>>(err), calls0)); }
                    return Err(err);
                },
            }
        } else {
            let rb = self.do_expr_stmt(term);
            let ghost qb = *self;
            let ghost cs = choose|cs: Seq<TermCall>|
                {
                    &&& do_expr_result(pb, qb, rb, cs)
                    &&& forall|j: int|
                        #![trigger cs[j]]
                        0 <= j < cs.len() ==> exists|q: &mut Parser|
                            #![trigger term.ensures((q,), cs[j].result)]
                            {
                                &&& q.text() == t
                                &&& q.offset() == cs[j].start
                                &&& final(q).offset() == cs[j].end
                                &&& term.ensures((q,), cs[j].result)
                            }
                };
            let ghost calls = calls0 + cs;
            proof {
                assert(calls.drop_first() =~= cs);
                assert(calls[0] == call0);
                assert forall|jj: int| #![trigger calls[jj]] 0 <= jj < calls.len() implies exists|q: &mut Parser|
                    #![trigger term.ensures((q,), calls[jj].result)]
                    {
                        &&& q.text() == t
                        &&& q.offset() == calls[jj].start
                        &&& final(q).offset() == calls[jj].end
                        &&& term.ensures((q,), calls[jj].result)
                    } by {
                    if jj > 0 {
                        assert(calls[jj] == cs[jj - 1]);
                    }
                }
            }
            match rb {
                Ok(x) => {
                    let mut children: Vec<Syntax> = Vec::new();
                    let ghost gx = x;
                    children.push(pattern);
                    children.push(coll);
                    children.push(x);
                    let range = self.input().range_from(start);
                    let node = self.create_node(SyntaxKind::Do, range, children);
                    proof {
                        assert(do_expr_result(pb, *self, rb, cs));
                        assert(for_result(*old(self), *self, Ok::<Syntax, Box<ParseError>>(node), calls));
                    }
                    return Ok(node);
                },
                Err(err) => {
                    proof {
                        assert(do_expr_result(pb, *self, rb, cs));
                        assert(for_result(*old(self), *self, Err::<Syntax, Box<ParseError>>(err), calls));
                    }
                    return Err(err);
                },
            }
        };
        let mut children: Vec<Syntax> = Vec::new();
        children.push(pattern);
        children.push(coll);
        children.push(body);
        let range = self.input().range_from(start);
        let node = self.create_node(SyntaxKind::Do, range, children);
        Ok(node)
    }

    /// One statement of a `do` block at the cursor (see `stmt_rel`; the calls
    /// are ones that `term` can make).
    #[verifier::spinoff_prover]
    #[verifier::rlimit(60)]
    fn do_stmt<F, E>(&mut self, term: F, block_end: E) -> (r: ParserResult<Syntax>) where
        F: Fn(&mut Parser) -> ParserResult<Syntax> + Copy,
        E: Fn(&Parser) -> bool + Copy,
        requires
            old(self).wf(),
            forall|q: &mut Parser| q.wf() ==> term.requires((q,)),
            forall|q: &mut Parser, x: ParserResult<Syntax>|
                term.ensures((q,), x) ==> {
                    &&& final(q).wf()
                    &&& final(q).text() == q.text()
                    &&& final(q).offset() >= q.offset()
                    &&& final(q).saved() == q.saved()
                    &&& x is Ok ==> final(q).offset() > q.offset()
                },
            forall|q: &Parser| q.wf() ==> block_end.requires((q,)),
        ensures
            final(self).wf(),
            r is Ok ==> final(self).offset() > old(self).offset(),
            exists|calls: Seq<TermCall>|
                #![trigger stmt_rel(*old(self), *final(self), r, calls)]
                {
                    &&& stmt_rel(*old(self), *final(self), r, calls)
                    &&& forall|j: int|
                        #![trigger calls[j]]
                        0 <= j < calls.len() ==> exists|q: &mut Parser|
                            #![trigger term.ensures((q,), calls[j].result)]
                            {
                                &&& q.text() == old(self).text()
                                &&& q.offset() == calls[j].start
                                &&& final(q).offset() == calls[j].end
                                &&& term.ensures((q,), calls[j].result)
                            }
                },
        decreases old(self).text().len() - old(self).offset(), 1int,
    {
        proof { self.lemma_wf(); }
        let ghost t = self.text();
        let ghost p0 = *self;
        if self.peek_keyword("let") {
            let r = self.do_let_stmt(term);
            proof {
                let ghost cs = choose|cs: Seq<TermCall>|
                    {
                        &&& crate::expressions::do_let_result(p0, *self, r, cs)
                        &&& forall|j: int|
                            #![trigger cs[j]]
                            0 <= j < cs.len() ==> exists|q: &mut Parser|
                                #![trigger term.ensures((q,), cs[j].result)]
                                {
                                    &&& q.text() == t
                                    &&& q.offset() == cs[j].start
                                    &&& final(q).offset() == cs[j].end
                                    &&& term.ensures((q,), cs[j].result)
                                }
                    };
                assert(stmt_rel(p0, *self, r, cs));
            }
            r
        } else if self.peek_keyword("return") {
            let r = self.do_return_stmt(term);
            proof {
                let ghost cs = choose|cs: Seq<TermCall>|
                    {
                        &&& crate::expressions::return_result(p0, *self, r, cs)
                        &&& forall|j: int|
                            #![trigger cs[j]]
                            0 <= j < cs.len() ==> exists|q: &mut Parser|
                                #![trigger term.ensures((q,), cs[j].result)]
                                {
                                    &&& q.text() == t
                                    &&& q.offset() == cs[j].start
                                    &&& final(q).offset() == cs[j].end
                                    &&& term.ensures((q,), cs[j].result)
                                }
                    };
                assert(stmt_rel(p0, *self, r, cs));
            }
            r
        } else if self.peek_keyword("pure") {
            let r = self.do_pure_stmt(term);
            proof {
                let ghost cs = choose|cs: Seq<TermCall>|
                    {
                        &&& crate::expressions::pure_result(p0, *self, r, cs)
                        &&& forall|j: int|
                            #![trigger cs[j]]
                            0 <= j < cs.len() ==> exists|q: &mut Parser|
                                #![trigger term.ensures((q,), cs[j].result)]
                                {
                                    &&& q.text() == t
                                    &&& q.offset() == cs[j].start
                                    &&& final(q).offset() == cs[j].end
                                    &&& term.ensures((q,), cs[j].result)
                                }
                    };
                assert(stmt_rel(p0, *self, r, cs));
            }
            r
        } else if self.peek_keyword("for") {
            let r = self.do_for_stmt(term, block_end);
            proof {
                let ghost cs = choose|cs: Seq<TermCall>|
                    {
                        &&& for_result(p0, *self, r, cs)
                        &&& forall|j: int|
                            #![trigger cs[j]]
                            0 <= j < cs.len() ==> exists|q: &mut Parser|
                                #![trigger term.ensures((q,), cs[j].result)]
                                {
                                    &&& q.text() == t
                                    &&& q.offset() == cs[j].start
                                    &&& final(q).offset() == cs[j].end
                                    &&& term.ensures((q,), cs[j].result)
                                }
                    };
                assert(stmt_rel(p0, *self, r, cs));
            }
            r
        } else {
            let r = self.do_expr_stmt(term);
            proof {
                let ghost cs = choose|cs: Seq<TermCall>|
                    {
                        &&& crate::expressions::do_expr_result(p0, *self, r, cs)
                        &&& forall|j: int|
                            #![trigger cs[j]]
                            0 <= j < cs.len() ==> exists|q: &mut Parser|
                                #![trigger term.ensures((q,), cs[j].result)]
                                {
                                    &&& q.text() == t
                                    &&& q.offset() == cs[j].start
                                    &&& final(q).offset() == cs[j].end
                                    &&& term.ensures((q,), cs[j].result)
                                }
                    };
                assert(stmt_rel(p0, *self, r, cs));
            }
            r
        }
    }

    /// A `do` block: `do`, then statements, each followed by whitespace and
    /// comments and perhaps `;`, until `block_end` says the block ends (see
    /// `do_result`; the calls are ones that `term` and `block_end` can make).
    #[verifier::spinoff_prover]
    #[verifier::rlimit(100)]
    pub fn do_term<F, E>(&mut self, term: F, block_end: E) -> (r: ParserResult<Syntax>) where
        F: Fn(&mut Parser) -> ParserResult<Syntax> + Copy,
        E: Fn(&Parser) -> bool + Copy,
        requires
            old(self).wf(),
            forall|q: &mut Parser| q.wf() ==> term.requires((q,)),
            forall|q: &mut Parser, x: ParserResult<Syntax>|
                term.ensures((q,), x) ==> {
                    &&& final(q).wf()
                    &&& final(q).text() == q.text()
                    &&& final(q).offset() >= q.offset()
                    &&& final(q).saved() == q.saved()
                    &&& x is Ok ==> final(q).offset() > q.offset()
                },
            forall|q: &Parser| q.wf() ==> block_end.requires((q,)),
        ensures
            final(self).wf(),
            r is Ok ==> final(self).offset() > old(self).offset(),
            exists|calls: Seq<TermCall>, ocalls: Seq<OpCall>, steps: Seq<BinderStep>, phase: BinderPhase|
                #![trigger do_result(*old(self), *final(self), r, calls, ocalls, steps, phase)]
                {
                    &&& do_result(*old(self), *final(self), r, calls, ocalls, steps, phase)
                    &&& forall|j: int|
                        #![trigger calls[j]]
                        0 <= j < calls.len() ==> exists|q: &mut Parser|
                            #![trigger term.ensures((q,), calls[j].result)]
                            {
                                &&& q.text() == old(self).text()
                                &&& q.offset() == calls[j].start
                                &&& final(q).offset() == calls[j].end
                                &&& term.ensures((q,), calls[j].result)
                            }
                    &&& forall|j: int|
                        #![trigger ocalls[j]]
                        0 <= j < ocalls.len() ==> {
                            &&& ocalls[j].asked.text() == old(self).text()
                            &&& ocalls[j].asked.offset() == ocalls[j].at
                            &&& block_end.ensures((&ocalls[j].asked,), ocalls[j].answer)
                        }
                },
        decreases old(self).text().len() - old(self).offset(), 2int,
    {
        proof {
            self.lemma_wf();
            reveal_strlit("do");
        }
        let ghost t = self.text();
        let ghost i = self.offset() as int;
        let ghost none: Seq<TermCall> = Seq::empty();
        let ghost noops: Seq<OpCall> = Seq::empty();
        let ghost nosteps: Seq<BinderStep> = Seq::empty();
        let ghost anyphase = BinderPhase::Ended(0);
        let start = self.position();
        match self.keyword("do") {
            Ok(()) => {},
            Err(e) => {
                proof { assert(do_result(*old(self), *self, Err::<Syntax, Box<ParseError>>(e), none, noops, nosteps, anyphase)); }
                return Err(e);
            },
        }
        self.skip_whitespace();
        proof {
            lemma_trivia_end(t, i + 2);
            self.lemma_wf();
        }
        let ghost k0 = self.offset() as int;
        let mut statements: Vec<Syntax> = Vec::new();
        let ghost mut ocalls: Seq<OpCall> = Seq::empty();
        proof {
            assert(statements@ =~= step_results(nosteps));
            assert(do_so_far(t, k0, nosteps, ocalls, k0, statements@));
            assert(flatten(nosteps).len() == 0);
        }
        loop
            invariant_except_break
                exists|steps: Seq<BinderStep>|
                    #![trigger do_so_far(t, k0, steps, ocalls, self.offset() as int, statements@)]
                    {
                        &&& do_so_far(t, k0, steps, ocalls, self.offset() as int, statements@)
                        &&& forall|j: int|
                            #![trigger flatten(steps)[j]]
                            0 <= j < flatten(steps).len() ==> exists|q: &mut Parser|
                                #![trigger term.ensures((q,), flatten(steps)[j].result)]
                                {
                                    &&& q.text() == t
                                    &&& q.offset() == flatten(steps)[j].start
                                    &&& final(q).offset() == flatten(steps)[j].end
                                    &&& term.ensures((q,), flatten(steps)[j].result)
                                }
                    },
            invariant
                self.wf(),
                t == self.text(),
                t == old(self).text(),
                i == old(self).offset(),
                keyword_at(t, i, "do"@),
                k0 == trivia_end(t, i + 2),
                i + 2 <= k0 <= self.offset() <= t.len(),
                forall|q: &mut Parser| q.wf() ==> term.requires((q,)),
                forall|q: &mut Parser, x: ParserResult<Syntax>|
                    term.ensures((q,), x) ==> {
                        &&& final(q).wf()
                        &&& final(q).text() == q.text()
                        &&& final(q).offset() >= q.offset()
                        &&& final(q).saved() == q.saved()
                        &&& x is Ok ==> final(q).offset() > q.offset()
                    },
                forall|q: &Parser| q.wf() ==> block_end.requires((q,)),
                forall|j: int|
                    #![trigger ocalls[j]]
                    0 <= j < ocalls.len() ==> {
                        &&& ocalls[j].asked.text() == t
                        &&& ocalls[j].asked.offset() == ocalls[j].at
                        &&& block_end.ensures((&ocalls[j].asked,), ocalls[j].answer)
                    },
            ensures
                self.wf(),
                self.offset() > i,
                exists|steps: Seq<BinderStep>|
                    #![trigger do_valid(t, k0, steps, ocalls, BinderPhase::Ended(self.offset() as int))]
                    {
                        &&& do_valid(t, k0, steps, ocalls, BinderPhase::Ended(self.offset() as int))
                        &&& statements@ == step_results(steps)
                        &&& forall|j: int|
                            #![trigger flatten(steps)[j]]
                            0 <= j < flatten(steps).len() ==> exists|q: &mut Parser|
                                #![trigger term.ensures((q,), flatten(steps)[j].result)]
                                {
                                    &&& q.text() == t
                                    &&& q.offset() == flatten(steps)[j].start
                                    &&& final(q).offset() == flatten(steps)[j].end
                                    &&& term.ensures((q,), flatten(steps)[j].result)
                                }
                    },
            decreases t.len() - self.offset(),
        {
            let ghost k = self.offset() as int;
            let ghost v0 = statements@;
            let ghost oc0 = ocalls;
            let ghost steps0 = choose|steps: Seq<BinderStep>|
                {
                    &&& do_so_far(t, k0, steps, oc0, k, v0)
                    &&& forall|j: int|
                        #![trigger flatten(steps)[j]]
                        0 <= j < flatten(steps).len() ==> exists|q: &mut Parser|
                            #![trigger term.ensures((q,), flatten(steps)[j].result)]
                            {
                                &&& q.text() == t
                                &&& q.offset() == flatten(steps)[j].start
                                &&& final(q).offset() == flatten(steps)[j].end
                                &&& term.ensures((q,), flatten(steps)[j].result)
                            }
                };
            self.skip_whitespace();
            proof {
                lemma_trivia_end(t, k);
                self.lemma_wf();
            }
            let ghost pq = *self;
            let ghost pos = self.offset() as int;
            let stop = block_end(&*self);
            proof {
                assert(block_end.ensures((&pq,), stop));
                ocalls = oc0.push(OpCall { at: pos, asked: pq, answer: stop });
                assert forall|jj: int| #![trigger ocalls[jj]] 0 <= jj < ocalls.len() implies {
                    &&& ocalls[jj].asked.text() == t
                    &&& ocalls[jj].asked.offset() == ocalls[jj].at
                    &&& block_end.ensures((&ocalls[jj].asked,), ocalls[jj].answer)
                } by {
                    if jj < oc0.len() {
                        assert(ocalls[jj] == oc0[jj]);
                    }
                }
                assert(pos == do_pos(t, k0, steps0, steps0.len() as int));
            }
            if stop {
                proof {
                    let n = steps0.len() as int;
                    assert forall|m: int| 0 <= m <= n implies (#[trigger] ocalls[m]).at == do_pos(t, k0, steps0, m) by {
                        if m < n {
                            assert(ocalls[m] == oc0[m]);
                        }
                    }
                    assert forall|m: int| 0 <= m < n implies !(#[trigger] ocalls[m]).answer by {
                        assert(ocalls[m] == oc0[m]);
                    }
                    assert(do_valid(t, k0, steps0, ocalls, BinderPhase::Ended(self.offset() as int)));
                }
                break;
            }
            let ghost p1 = *self;
            let res = self.do_stmt(term, block_end);
            let ghost q1 = *self;
            let ghost cs = choose|cs: Seq<TermCall>|
                {
                    &&& stmt_rel(p1, q1, res, cs)
                    &&& forall|j: int|
                        #![trigger cs[j]]
                        0 <= j < cs.len() ==> exists|q: &mut Parser|
                            #![trigger term.ensures((q,), cs[j].result)]
                            {
                                &&& q.text() == t
                                &&& q.offset() == cs[j].start
                                &&& final(q).offset() == cs[j].end
                                &&& term.ensures((q,), cs[j].result)
                            }
                };
            let ghost all = flatten(steps0) + cs;
            proof {
                self.lemma_wf();
                assert forall|jj: int| #![trigger all[jj]] 0 <= jj < all.len() implies exists|q: &mut Parser|
                    #![trigger term.ensures((q,), all[jj].result)]
                    {
                        &&& q.text() == t
                        &&& q.offset() == all[jj].start
                        &&& final(q).offset() == all[jj].end
                        &&& term.ensures((q,), all[jj].result)
                    } by {
                    if jj < flatten(steps0).len() {
                        assert(all[jj] == flatten(steps0)[jj]);
                    } else {
                        assert(all[jj] == cs[jj - flatten(steps0).len()]);
                    }
                }
            }
            let stmt = match res {
                Ok(x) => x,
                Err(e) => {
                    proof {
                        let n = steps0.len() as int;
                        let phase = BinderPhase::Failed(pos, cs, e, self.offset() as int);
                        assert forall|m: int| 0 <= m <= n implies (#[trigger] ocalls[m]).at == do_pos(t, k0, steps0, m) by {
                            if m < n {
                                assert(ocalls[m] == oc0[m]);
                            }
                        }
                        assert forall|m: int| 0 <= m < n implies !(#[trigger] ocalls[m]).answer by {
                            assert(ocalls[m] == oc0[m]);
                        }
                        assert(stmt_rel(p1, q1, Err::<Syntax, Box<ParseError>>(phase->Failed_2), phase->Failed_1));
                        assert(exists|b: Parser, q: Parser|
                            #[trigger] stmt_rel(b, q, Err::<Syntax, Box<ParseError>>(phase->Failed_2), phase->Failed_1) && b.text() == t
                                && b.offset() == phase->Failed_0 && q.offset() == phase->Failed_3);
                        assert(do_valid(t, k0, steps0, ocalls, phase));
                        assert(do_result(*old(self), *self, Err::<Syntax, Box<ParseError>>(e), all, ocalls, steps0, phase));
                    }
                    return Err(e);
                },
            };
            let ghost e = self.offset() as int;
            let ghost step = BinderStep { start: pos, end: e, result: stmt, calls: cs };
            statements.push(stmt);
            self.skip_whitespace();
            proof {
                lemma_trivia_end(t, e);
                self.lemma_wf();
            }
            let ghost w = self.offset() as int;
            if self.peek() == Some(';') {
                self.advance();
                self.skip_whitespace();
                proof {
                    lemma_trivia_end(t, w + 1);
                    self.lemma_wf();
                }
            }
            proof {
                let steps1 = steps0.push(step);
                let n = steps0.len() as int;
                assert(steps1.drop_last() =~= steps0);
                assert(flatten(steps1) == all);
                assert(stmt_rel(p1, q1, Ok::<Syntax, Box<ParseError>>(step.result), step.calls));
                assert(stmt_ok(t, step));
                assert forall|m: int| 0 <= m < steps1.len() implies {
                    &&& #[trigger] steps1[m].start == do_pos(t, k0, steps1, m)
                    &&& stmt_ok(t, steps1[m])
                } by {
                    if m < n {
                        assert(steps1[m] == steps0[m]);
                        if m > 0 {
                            assert(steps1[m - 1] == steps0[m - 1]);
                        }
                        assert(steps0[m].start == do_pos(t, k0, steps0, m));
                    } else if m > 0 {
                        assert(steps1[m - 1] == steps0[m - 1]);
                    }
                }
                assert forall|m: int| 0 <= m < steps1.len() implies (#[trigger] ocalls[m]).at == do_pos(t, k0, steps1, m) by {
                    if m < n {
                        assert(ocalls[m] == oc0[m]);
                        if m > 0 {
                            assert(steps1[m - 1] == steps0[m - 1]);
                        }
                    }
                }
                assert forall|m: int| 0 <= m < steps1.len() implies !(#[trigger] ocalls[m]).answer by {
                    if m < n {
                        assert(ocalls[m] == oc0[m]);
                    }
                }
                assert(statements@ =~= step_results(steps1));
                assert(steps1[n] == step);
                assert(do_so_far(t, k0, steps1, ocalls, self.offset() as int, statements@));
            }
        }
        let ghost kb = self.offset() as int;
        let ghost steps = choose|steps: Seq<BinderStep>|
            {
                &&& do_valid(t, k0, steps, ocalls, BinderPhase::Ended(kb))
                &&& statements@ == step_results(steps)
                &&& forall|j: int|
                    #![trigger flatten(steps)[j]]
                    0 <= j < flatten(steps).len() ==> exists|q: &mut Parser|
                        #![trigger term.ensures((q,), flatten(steps)[j].result)]
                        {
                            &&& q.text() == t
                            &&& q.offset() == flatten(steps)[j].start
                            &&& final(q).offset() == flatten(steps)[j].end
                            &&& term.ensures((q,), flatten(steps)[j].result)
                        }
            };
        let ghost vs = statements@;
        let range = self.input().range_from(start);
        let node = self.create_node(SyntaxKind::Do, range, statements);
        proof {
            assert(do_result(*old(self), *self, Ok::<Syntax, Box<ParseError>>(node), flatten(steps), ocalls, steps, BinderPhase::Ended(kb)));
        }
        Ok(node)
    }
}

} // verus!
