//! `mutual` blocks: declarations read one after another up to `end` by a
//! declaration parser given by the caller, and the declaration that each
//! keyword starts.
use vstd::prelude::*;
use crate::declarations::{
    abbrev_result, binder_decl_result, body_decl_result, instance_result, typed_decl_result, BinderPhase,
    BinderStep, ItemKind, OptKind,
};
use crate::definitions::def_result;
use crate::error::{ParseError, ParserResult, is_expected};
use crate::interpolation::TermCall;
use crate::parser::{Parser, keyword_at};
use crate::scan::{lemma_trivia_end, trivia_end};
use crate::syntax::{pos_at, range_at, Syntax, SyntaxKind};
use crate::tactics::keyword_missing;

verus! {

/// Another declaration of a `mutual` block may start at `k`: the text goes
/// on and `end` does not stand there.
pub open spec fn mutual_open(t: Seq<char>, k: int) -> bool {
    0 <= k < t.len() && !keyword_at(t, k, "end"@)
}

/// Where declaration `m` of `calls` starts: at `k0` for the first, else
/// after the whitespace and comments that follow the one before.
pub open spec fn mutual_pos(t: Seq<char>, k0: int, calls: Seq<TermCall>, m: int) -> int {
    if m == 0 {
        k0
    } else {
        trivia_end(t, calls[m - 1].end)
    }
}

/// The declarations that the calls returned.
pub open spec fn call_values(calls: Seq<TermCall>) -> Seq<Syntax> {
    Seq::new(calls.len(), |j: int| calls[j].result->Ok_0)
}

/// The calls of the declaration parser in a block whose declarations start
/// at `k0`: each starts where the one before left the block, while the block
/// is open, and each but the last succeeded.
pub open spec fn mutual_calls(t: Seq<char>, k0: int, calls: Seq<TermCall>) -> bool {
    forall|m: int|
        0 <= m < calls.len() ==> {
            &&& #[trigger] calls[m].start == mutual_pos(t, k0, calls, m)
            &&& mutual_open(t, calls[m].start)
            &&& m + 1 < calls.len() ==> calls[m].result is Ok
        }
}

/// What reading `mutual decl* end` from `p` gives, with `calls` the calls of
/// the declaration parser: the first failing declaration is the result;
/// else, once the block is no longer open, `end` closes it into a `Mutual`
/// node over the declarations, or its absence is the error.
pub open spec fn mutual_result(p: Parser, q: Parser, r: ParserResult<Syntax>, calls: Seq<TermCall>) -> bool {
    let t = p.text();
    let i = p.offset() as int;
    let k0 = trivia_end(t, i + 6);
    let n = calls.len() as int;
    let e = mutual_pos(t, k0, calls, n);
    &&& q.text() == t
    &&& if !keyword_at(t, i, "mutual"@) {
        calls.len() == 0 && keyword_missing(p, q, r, "mutual"@)
    } else {
        &&& mutual_calls(t, k0, calls)
        &&& if n > 0 && calls[n - 1].result is Err {
            &&& q.offset() == calls[n - 1].end
            &&& r == calls[n - 1].result
        } else {
            &&& !mutual_open(t, e)
            &&& if keyword_at(t, e, "end"@) {
                &&& q.offset() == e + 3
                &&& r matches Ok(x) && x matches Syntax::Node(nd) && {
                    &&& nd.kind == SyntaxKind::Mutual
                    &&& nd.range == range_at(t, i as nat, (e + 3) as nat)
                    &&& nd.children@ == call_values(calls)
                }
            } else {
                &&& q.offset() == e
                &&& r matches Err(err) && is_expected(*err, "keyword 'end'"@, pos_at(t, e as nat))
            }
        }
    }
}

/// A keyword that starts a declaration of a `mutual` block stands at `k`.
pub open spec fn mutual_keyword_at(t: Seq<char>, k: int) -> bool {
    ||| keyword_at(t, k, "inductive"@)
    ||| keyword_at(t, k, "structure"@)
    ||| keyword_at(t, k, "def"@)
    ||| keyword_at(t, k, "theorem"@)
    ||| keyword_at(t, k, "axiom"@)
    ||| keyword_at(t, k, "constant"@)
    ||| keyword_at(t, k, "variable"@)
    ||| keyword_at(t, k, "instance"@)
    ||| keyword_at(t, k, "class"@)
    ||| keyword_at(t, k, "abbrev"@)
}

/// One more successful declaration keeps the calls of a block consistent.
proof fn lemma_mutual_step(t: Seq<char>, k0: int, calls: Seq<TermCall>, call: TermCall)
    requires
        mutual_calls(t, k0, calls),
        forall|m: int| 0 <= m < calls.len() ==> (#[trigger] calls[m]).result is Ok,
        call.start == mutual_pos(t, k0, calls, calls.len() as int),
        mutual_open(t, call.start),
    ensures
        mutual_calls(t, k0, calls.push(call)),
        mutual_pos(t, k0, calls.push(call), calls.len() + 1int) == trivia_end(t, call.end),
{
    let c1 = calls.push(call);
    assert forall|m: int| 0 <= m < c1.len() implies {
        &&& #[trigger] c1[m].start == mutual_pos(t, k0, c1, m)
        &&& mutual_open(t, c1[m].start)
        &&& m + 1 < c1.len() ==> c1[m].result is Ok
    } by {
        if m < calls.len() {
            assert(c1[m] == calls[m]);
            assert(calls[m].start == mutual_pos(t, k0, calls, m));
            if m > 0 {
                assert(c1[m - 1] == calls[m - 1]);
            }
        } else if m > 0 {
            assert(c1[m - 1] == calls[m - 1]);
        }
    }
}

impl Parser {
    /// `mutual decl* end` (see `mutual_result`; the calls are ones that
    /// `decl` can make).
    #[verifier::spinoff_prover]
    #[verifier::rlimit(50)]
    pub fn mutual_command<D>(&mut self, decl: D) -> (r: ParserResult<Syntax>) where
        D: Fn(&mut Parser) -> ParserResult<Syntax>,
        requires
            old(self).wf(),
            forall|q: &mut Parser| q.wf() ==> decl.requires((q,)),
            forall|q: &mut Parser, x: ParserResult<Syntax>|
                decl.ensures((q,), x) ==> {
                    &&& final(q).wf()
                    &&& final(q).text() == q.text()
                    &&& final(q).offset() >= q.offset()
                    &&& x is Ok ==> final(q).offset() > q.offset()
                },
        ensures
            final(self).wf(),
            exists|calls: Seq<TermCall>|
                #![trigger mutual_result(*old(self), *final(self), r, calls)]
                {
                    &&& mutual_result(*old(self), *final(self), r, calls)
                    &&& forall|j: int|
                        #![trigger calls[j]]
                        0 <= j < calls.len() ==> exists|q: &mut Parser|
                            #![trigger decl.ensures((q,), calls[j].result)]
                            {
                                &&& q.text() == old(self).text()
                                &&& q.offset() == calls[j].start
                                &&& final(q).offset() == calls[j].end
                                &&& decl.ensures((q,), calls[j].result)
                            }
                },
    {
        proof { self.lemma_wf(); }
        let ghost t = self.text();
        let ghost i = self.offset() as int;
        let start = self.position();
        match self.keyword("mutual") {
            Ok(()) => {},
            Err(e) => {
                proof {
                    assert(mutual_result(*old(self), *self, Err::<Syntax, Box<ParseError>>(e), Seq::<TermCall>::empty()));
                }
                return Err(e);
            },
        }
        self.skip_whitespace();
        proof {
            reveal_strlit("mutual");
            lemma_trivia_end(t, i + 6);
            self.lemma_wf();
        }
        let ghost k0 = self.offset() as int;
        let mut declarations: Vec<Syntax> = Vec::new();
        let ghost mut calls: Seq<TermCall> = Seq::empty();
        while !self.peek_keyword("end") && !self.input().is_at_end()
            invariant
                self.wf(),
                t == self.text(),
                t == old(self).text(),
                i == old(self).offset(),
                keyword_at(t, i, "mutual"@),
                k0 == trivia_end(t, i + 6),
                k0 <= self.offset() <= t.len(),
                forall|q: &mut Parser| q.wf() ==> decl.requires((q,)),
                forall|q: &mut Parser, x: ParserResult<Syntax>|
                    decl.ensures((q,), x) ==> {
                        &&& final(q).wf()
                        &&& final(q).text() == q.text()
                        &&& final(q).offset() >= q.offset()
                        &&& x is Ok ==> final(q).offset() > q.offset()
                    },
                start == pos_at(t, i as nat),
                mutual_calls(t, k0, calls),
                forall|m: int| 0 <= m < calls.len() ==> (#[trigger] calls[m]).result is Ok,
                self.offset() == mutual_pos(t, k0, calls, calls.len() as int),
                self.offset() == trivia_end(t, self.offset() as int),
                declarations@ == call_values(calls),
                forall|j: int|
                    #![trigger calls[j]]
                    0 <= j < calls.len() ==> exists|q: &mut Parser|
                        #![trigger decl.ensures((q,), calls[j].result)]
                        {
                            &&& q.text() == t
                            &&& q.offset() == calls[j].start
                            &&& final(q).offset() == calls[j].end
                            &&& decl.ensures((q,), calls[j].result)
                        },
            ensures
                self.wf(),
                t == self.text(),
                t == old(self).text(),
                i == old(self).offset(),
                keyword_at(t, i, "mutual"@),
                k0 == trivia_end(t, i + 6),
                k0 <= self.offset() <= t.len(),
                forall|q: &mut Parser| q.wf() ==> decl.requires((q,)),
                forall|q: &mut Parser, x: ParserResult<Syntax>|
                    decl.ensures((q,), x) ==> {
                        &&& final(q).wf()
                        &&& final(q).text() == q.text()
                        &&& final(q).offset() >= q.offset()
                        &&& x is Ok ==> final(q).offset() > q.offset()
                    },
                start == pos_at(t, i as nat),
                mutual_calls(t, k0, calls),
                forall|m: int| 0 <= m < calls.len() ==> (#[trigger] calls[m]).result is Ok,
                self.offset() == mutual_pos(t, k0, calls, calls.len() as int),
                self.offset() == trivia_end(t, self.offset() as int),
                declarations@ == call_values(calls),
                forall|j: int|
                    #![trigger calls[j]]
                    0 <= j < calls.len() ==> exists|q: &mut Parser|
                        #![trigger decl.ensures((q,), calls[j].result)]
                        {
                            &&& q.text() == t
                            &&& q.offset() == calls[j].start
                            &&& final(q).offset() == calls[j].end
                            &&& decl.ensures((q,), calls[j].result)
                        },
                !mutual_open(t, self.offset() as int),
            decreases t.len() - self.offset(),
        {
            proof { self.lemma_wf(); }
            let ghost k = self.offset() as int;
            self.skip_whitespace_and_comments();
            proof { self.lemma_wf(); }
            if self.peek_keyword("end") || self.input().is_at_end() {
                break;
            }
            let res = decl(self);
            proof { self.lemma_wf(); }
            let ghost call = TermCall { start: k, end: self.offset() as int, result: res };
            proof { lemma_mutual_step(t, k0, calls, call); }
            match res {
                Ok(d) => {
                    declarations.push(d);
                },
                Err(e) => {
                    proof {
                        let c1 = calls.push(call);
                        assert(mutual_calls(t, k0, c1));
                        assert(c1[c1.len() - 1] == call);
                        assert forall|j: int|
                            #![trigger c1[j]]
                            0 <= j < c1.len() implies exists|q: &mut Parser|
                                #![trigger decl.ensures((q,), c1[j].result)]
                                {
                                    &&& q.text() == t
                                    &&& q.offset() == c1[j].start
                                    &&& final(q).offset() == c1[j].end
                                    &&& decl.ensures((q,), c1[j].result)
                                } by {
                            if j < calls.len() {
                                assert(c1[j] == calls[j]);
                            }
                        }
                        assert(mutual_result(*old(self), *self, Err::<Syntax, Box<ParseError>>(e), c1));
                    }
                    return Err(e);
                },
            }
            let ghost e1 = self.offset() as int;
            self.skip_whitespace();
            proof {
                lemma_trivia_end(t, e1);
                crate::binder::lemma_trivia_idem(t, e1);
                let c1 = calls.push(call);
                assert(declarations@ =~= call_values(c1));
                assert forall|m: int| 0 <= m < c1.len() implies (#[trigger] c1[m]).result is Ok by {
                    if m < calls.len() {
                        assert(c1[m] == calls[m]);
                    }
                }
                assert forall|j: int|
                    #![trigger c1[j]]
                    0 <= j < c1.len() implies exists|q: &mut Parser|
                        #![trigger decl.ensures((q,), c1[j].result)]
                        {
                            &&& q.text() == t
                            &&& q.offset() == c1[j].start
                            &&& final(q).offset() == c1[j].end
                            &&& decl.ensures((q,), c1[j].result)
                        } by {
                    if j < calls.len() {
                        assert(c1[j] == calls[j]);
                    }
                }
                calls = c1;
            }
        }
        proof { self.lemma_wf(); }
        match self.keyword("end") {
            Ok(()) => {},
            Err(err) => {
                proof {
                    reveal_strlit("keyword '");
                    reveal_strlit("end");
                    reveal_strlit("'");
                    reveal_strlit("keyword 'end'");
                    assert("keyword '"@ + "end"@ + "'"@ =~= "keyword 'end'"@);
                    if calls.len() > 0 {
                        assert(calls[calls.len() - 1].result is Ok);
                    }
                    assert(mutual_result(*old(self), *self, Err::<Syntax, Box<ParseError>>(err), calls));
                }
                return Err(err);
            },
        }
        proof { reveal_strlit("end"); }
        let range = self.input().range_from(start);
        let node = self.create_node(SyntaxKind::Mutual, range, declarations);
        proof {
            assert(mutual_result(*old(self), *self, Ok::<Syntax, Box<ParseError>>(node), calls));
        }
        Ok(node)
    }
}

impl Parser {
    /// A declaration inside a `mutual` block, chosen by the keyword at the
    /// cursor: `inductive`, `structure`, `def`, `theorem`, `axiom`,
    /// `constant`, `variable`, `instance`, `class` or `abbrev`, each read as
    /// its command reads it; at any other place an error that a mutual
    /// declaration was expected, the cursor unmoved.
    #[verifier::spinoff_prover]
    #[verifier::rlimit(50)]
    pub fn mutual_declaration<P, T, A>(&mut self, attrs: P, term: T, atom: A) -> (r: ParserResult<Syntax>) where
        P: Fn(&mut Parser) -> ParserResult<Syntax>,
        T: Fn(&mut Parser) -> ParserResult<Syntax> + Copy,
        A: Fn(&mut Parser) -> ParserResult<Syntax> + Copy,
        requires
            old(self).wf(),
            forall|q: &mut Parser| q.wf() ==> attrs.requires((q,)),
            forall|q: &mut Parser, x: ParserResult<Syntax>|
                attrs.ensures((q,), x) ==> {
                    &&& final(q).wf()
                    &&& final(q).text() == q.text()
                    &&& final(q).offset() >= q.offset()
                },
            forall|q: &mut Parser| q.wf() ==> term.requires((q,)),
            forall|q: &mut Parser, x: ParserResult<Syntax>|
                term.ensures((q,), x) ==> {
                    &&& final(q).wf()
                    &&& final(q).text() == q.text()
                    &&& final(q).offset() >= q.offset()
                },
            forall|q: &mut Parser| q.wf() ==> atom.requires((q,)),
            forall|q: &mut Parser, x: ParserResult<Syntax>|
                atom.ensures((q,), x) ==> {
                    &&& final(q).wf()
                    &&& final(q).text() == q.text()
                    &&& final(q).offset() >= q.offset()
                },
        ensures
            final(self).wf(),
            !mutual_keyword_at(old(self).text(), old(self).offset() as int) ==> {
                &&& final(self).moved(*old(self), old(self).offset())
                &&& r matches Err(e) && is_expected(*e, "mutual declaration"@, old(self).pos())
            },
            keyword_at(old(self).text(), old(self).offset() as int, "inductive"@) ==> exists|
                    tcalls: Seq<TermCall>,
                    acalls: Seq<TermCall>,
                    bsteps: Seq<BinderStep>,
                    bphase: BinderPhase,
                    isteps: Seq<BinderStep>,
                    iphase: BinderPhase,
                |
                    #![trigger body_decl_result(*old(self), *final(self), r, tcalls, acalls, bsteps, bphase, isteps, iphase, "inductive"@, SyntaxKind::Inductive, OptKind::Colon, false, ItemKind::Constructor, true)]
                    {
                        &&& body_decl_result(*old(self), *final(self), r, tcalls, acalls, bsteps, bphase, isteps, iphase, "inductive"@, SyntaxKind::Inductive, OptKind::Colon, false, ItemKind::Constructor, true)
                        &&& forall|j: int|
                            #![trigger tcalls[j]]
                            0 <= j < tcalls.len() ==> exists|q: &mut Parser|
                                #![trigger term.ensures((q,), tcalls[j].result)]
                                {
                                    &&& q.text() == old(self).text()
                                    &&& q.offset() == tcalls[j].start
                                    &&& final(q).offset() == tcalls[j].end
                                    &&& term.ensures((q,), tcalls[j].result)
                                }
                        &&& forall|j: int|
                            #![trigger acalls[j]]
                            0 <= j < acalls.len() ==> exists|q: &mut Parser|
                                #![trigger term.ensures((q,), acalls[j].result)]
                                {
                                    &&& q.text() == old(self).text()
                                    &&& q.offset() == acalls[j].start
                                    &&& final(q).offset() == acalls[j].end
                                    &&& term.ensures((q,), acalls[j].result)
                                }
                    },
            keyword_at(old(self).text(), old(self).offset() as int, "structure"@) ==> exists|
                    tcalls: Seq<TermCall>,
                    acalls: Seq<TermCall>,
                    bsteps: Seq<BinderStep>,
                    bphase: BinderPhase,
                    isteps: Seq<BinderStep>,
                    iphase: BinderPhase,
                |
                    #![trigger body_decl_result(*old(self), *final(self), r, tcalls, acalls, bsteps, bphase, isteps, iphase, "structure"@, SyntaxKind::Structure, OptKind::ExtendsAtom, true, ItemKind::Field, true)]
                    {
                        &&& body_decl_result(*old(self), *final(self), r, tcalls, acalls, bsteps, bphase, isteps, iphase, "structure"@, SyntaxKind::Structure, OptKind::ExtendsAtom, true, ItemKind::Field, true)
                        &&& forall|j: int|
                            #![trigger tcalls[j]]
                            0 <= j < tcalls.len() ==> exists|q: &mut Parser|
                                #![trigger term.ensures((q,), tcalls[j].result)]
                                {
                                    &&& q.text() == old(self).text()
                                    &&& q.offset() == tcalls[j].start
                                    &&& final(q).offset() == tcalls[j].end
                                    &&& term.ensures((q,), tcalls[j].result)
                                }
                        &&& forall|j: int|
                            #![trigger acalls[j]]
                            0 <= j < acalls.len() ==> exists|q: &mut Parser|
                                #![trigger atom.ensures((q,), acalls[j].result)]
                                {
                                    &&& q.text() == old(self).text()
                                    &&& q.offset() == acalls[j].start
                                    &&& final(q).offset() == acalls[j].end
                                    &&& atom.ensures((q,), acalls[j].result)
                                }
                    },
            keyword_at(old(self).text(), old(self).offset() as int, "def"@) ==> exists|acalls: Seq<TermCall>, tcalls: Seq<TermCall>, bsteps: Seq<BinderStep>, bphase: BinderPhase|
                    #![trigger def_result(*old(self), *final(self), r, acalls, tcalls, bsteps, bphase)]
                    {
                        &&& def_result(*old(self), *final(self), r, acalls, tcalls, bsteps, bphase)
                        &&& forall|j: int|
                            #![trigger acalls[j]]
                            0 <= j < acalls.len() ==> exists|q: &mut Parser|
                                #![trigger attrs.ensures((q,), acalls[j].result)]
                                {
                                    &&& q.text() == old(self).text()
                                    &&& q.offset() == acalls[j].start
                                    &&& final(q).offset() == acalls[j].end
                                    &&& attrs.ensures((q,), acalls[j].result)
                                }
                        &&& forall|j: int|
                            #![trigger tcalls[j]]
                            0 <= j < tcalls.len() ==> exists|q: &mut Parser|
                                #![trigger term.ensures((q,), tcalls[j].result)]
                                {
                                    &&& q.text() == old(self).text()
                                    &&& q.offset() == tcalls[j].start
                                    &&& final(q).offset() == tcalls[j].end
                                    &&& term.ensures((q,), tcalls[j].result)
                                }
                    },
            keyword_at(old(self).text(), old(self).offset() as int, "theorem"@) ==> exists|calls: Seq<TermCall>, steps: Seq<BinderStep>, phase: BinderPhase|
                    #![trigger binder_decl_result(*old(self), *final(self), r, calls, steps, phase, "theorem"@, true, true, SyntaxKind::Theorem)]
                    {
                        &&& binder_decl_result(*old(self), *final(self), r, calls, steps, phase, "theorem"@, true, true, SyntaxKind::Theorem)
                        &&& forall|j: int|
                            #![trigger calls[j]]
                            0 <= j < calls.len() ==> exists|q: &mut Parser|
                                #![trigger term.ensures((q,), calls[j].result)]
                                {
                                    &&& q.text() == old(self).text()
                                    &&& q.offset() == calls[j].start
                                    &&& final(q).offset() == calls[j].end
                                    &&& term.ensures((q,), calls[j].result)
                                }
                    },
            keyword_at(old(self).text(), old(self).offset() as int, "axiom"@) ==> exists|calls: Seq<TermCall>|
                    #![trigger typed_decl_result(*old(self), *final(self), r, calls, "axiom"@, SyntaxKind::Axiom)]
                    {
                        &&& typed_decl_result(*old(self), *final(self), r, calls, "axiom"@, SyntaxKind::Axiom)
                        &&& forall|j: int|
                            #![trigger calls[j]]
                            0 <= j < calls.len() ==> exists|q: &mut Parser|
                                #![trigger term.ensures((q,), calls[j].result)]
                                {
                                    &&& q.text() == old(self).text()
                                    &&& q.offset() == calls[j].start
                                    &&& final(q).offset() == calls[j].end
                                    &&& term.ensures((q,), calls[j].result)
                                }
                    },
            keyword_at(old(self).text(), old(self).offset() as int, "constant"@) ==> exists|calls: Seq<TermCall>|
                    #![trigger typed_decl_result(*old(self), *final(self), r, calls, "constant"@, SyntaxKind::Constant)]
                    {
                        &&& typed_decl_result(*old(self), *final(self), r, calls, "constant"@, SyntaxKind::Constant)
                        &&& forall|j: int|
                            #![trigger calls[j]]
                            0 <= j < calls.len() ==> exists|q: &mut Parser|
                                #![trigger term.ensures((q,), calls[j].result)]
                                {
                                    &&& q.text() == old(self).text()
                                    &&& q.offset() == calls[j].start
                                    &&& final(q).offset() == calls[j].end
                                    &&& term.ensures((q,), calls[j].result)
                                }
                    },
            keyword_at(old(self).text(), old(self).offset() as int, "variable"@) ==> exists|calls: Seq<TermCall>, steps: Seq<BinderStep>, phase: BinderPhase|
                    #![trigger binder_decl_result(*old(self), *final(self), r, calls, steps, phase, "variable"@, false, false, SyntaxKind::Variable)]
                    {
                        &&& binder_decl_result(*old(self), *final(self), r, calls, steps, phase, "variable"@, false, false, SyntaxKind::Variable)
                        &&& forall|j: int|
                            #![trigger calls[j]]
                            0 <= j < calls.len() ==> exists|q: &mut Parser|
                                #![trigger term.ensures((q,), calls[j].result)]
                                {
                                    &&& q.text() == old(self).text()
                                    &&& q.offset() == calls[j].start
                                    &&& final(q).offset() == calls[j].end
                                    &&& term.ensures((q,), calls[j].result)
                                }
                    },
            keyword_at(old(self).text(), old(self).offset() as int, "instance"@) ==> exists|tcalls: Seq<TermCall>, acalls: Seq<TermCall>|
                    #![trigger instance_result(*old(self), *final(self), r, tcalls, acalls)]
                    {
                        &&& instance_result(*old(self), *final(self), r, tcalls, acalls)
                        &&& forall|j: int|
                            #![trigger tcalls[j]]
                            0 <= j < tcalls.len() ==> exists|q: &mut Parser|
                                #![trigger term.ensures((q,), tcalls[j].result)]
                                {
                                    &&& q.text() == old(self).text()
                                    &&& q.offset() == tcalls[j].start
                                    &&& final(q).offset() == tcalls[j].end
                                    &&& term.ensures((q,), tcalls[j].result)
                                }
                        &&& forall|j: int|
                            #![trigger acalls[j]]
                            0 <= j < acalls.len() ==> exists|q: &mut Parser|
                                #![trigger atom.ensures((q,), acalls[j].result)]
                                {
                                    &&& q.text() == old(self).text()
                                    &&& q.offset() == acalls[j].start
                                    &&& final(q).offset() == acalls[j].end
                                    &&& atom.ensures((q,), acalls[j].result)
                                }
                    },
            keyword_at(old(self).text(), old(self).offset() as int, "class"@) ==> exists|
                    tcalls: Seq<TermCall>,
                    acalls: Seq<TermCall>,
                    bsteps: Seq<BinderStep>,
                    bphase: BinderPhase,
                    isteps: Seq<BinderStep>,
                    iphase: BinderPhase,
                |
                    #![trigger body_decl_result(*old(self), *final(self), r, tcalls, acalls, bsteps, bphase, isteps, iphase, "class"@, SyntaxKind::Class, OptKind::ExtendsTerm, false, ItemKind::Field, false)]
                    {
                        &&& body_decl_result(*old(self), *final(self), r, tcalls, acalls, bsteps, bphase, isteps, iphase, "class"@, SyntaxKind::Class, OptKind::ExtendsTerm, false, ItemKind::Field, false)
                        &&& forall|j: int|
                            #![trigger tcalls[j]]
                            0 <= j < tcalls.len() ==> exists|q: &mut Parser|
                                #![trigger term.ensures((q,), tcalls[j].result)]
                                {
                                    &&& q.text() == old(self).text()
                                    &&& q.offset() == tcalls[j].start
                                    &&& final(q).offset() == tcalls[j].end
                                    &&& term.ensures((q,), tcalls[j].result)
                                }
                        &&& forall|j: int|
                            #![trigger acalls[j]]
                            0 <= j < acalls.len() ==> exists|q: &mut Parser|
                                #![trigger atom.ensures((q,), acalls[j].result)]
                                {
                                    &&& q.text() == old(self).text()
                                    &&& q.offset() == acalls[j].start
                                    &&& final(q).offset() == acalls[j].end
                                    &&& atom.ensures((q,), acalls[j].result)
                                }
                    },
            keyword_at(old(self).text(), old(self).offset() as int, "abbrev"@) ==> exists|calls: Seq<TermCall>, steps: Seq<BinderStep>, phase: BinderPhase|
                    #![trigger abbrev_result(*old(self), *final(self), r, calls, steps, phase)]
                    {
                        &&& abbrev_result(*old(self), *final(self), r, calls, steps, phase)
                        &&& forall|j: int|
                            #![trigger calls[j]]
                            0 <= j < calls.len() ==> exists|q: &mut Parser|
                                #![trigger term.ensures((q,), calls[j].result)]
                                {
                                    &&& q.text() == old(self).text()
                                    &&& q.offset() == calls[j].start
                                    &&& final(q).offset() == calls[j].end
                                    &&& term.ensures((q,), calls[j].result)
                                }
                    },
    {
        proof {
            self.lemma_wf();
            reveal_strlit("inductive");
            reveal_strlit("structure");
            reveal_strlit("def");
            reveal_strlit("theorem");
            reveal_strlit("axiom");
            reveal_strlit("constant");
            reveal_strlit("variable");
            reveal_strlit("instance");
            reveal_strlit("class");
            reveal_strlit("abbrev");
            let t = self.text();
            let k = self.offset() as int;
            if keyword_at(t, k, "inductive"@) {
                assert(t.subrange(k, k + 9)[0] == t[k]);
                assert(t.subrange(k, k + 9)[1] == t[k + 1]);
                assert(t.subrange(k, k + 9)[2] == t[k + 2]);
            }
            if keyword_at(t, k, "structure"@) {
                assert(t.subrange(k, k + 9)[0] == t[k]);
                assert(t.subrange(k, k + 9)[1] == t[k + 1]);
                assert(t.subrange(k, k + 9)[2] == t[k + 2]);
            }
            if keyword_at(t, k, "def"@) {
                assert(t.subrange(k, k + 3)[0] == t[k]);
                assert(t.subrange(k, k + 3)[1] == t[k + 1]);
                assert(t.subrange(k, k + 3)[2] == t[k + 2]);
            }
            if keyword_at(t, k, "theorem"@) {
                assert(t.subrange(k, k + 7)[0] == t[k]);
                assert(t.subrange(k, k + 7)[1] == t[k + 1]);
                assert(t.subrange(k, k + 7)[2] == t[k + 2]);
            }
            if keyword_at(t, k, "axiom"@) {
                assert(t.subrange(k, k + 5)[0] == t[k]);
                assert(t.subrange(k, k + 5)[1] == t[k + 1]);
                assert(t.subrange(k, k + 5)[2] == t[k + 2]);
            }
            if keyword_at(t, k, "constant"@) {
                assert(t.subrange(k, k + 8)[0] == t[k]);
                assert(t.subrange(k, k + 8)[1] == t[k + 1]);
                assert(t.subrange(k, k + 8)[2] == t[k + 2]);
            }
            if keyword_at(t, k, "variable"@) {
                assert(t.subrange(k, k + 8)[0] == t[k]);
                assert(t.subrange(k, k + 8)[1] == t[k + 1]);
                assert(t.subrange(k, k + 8)[2] == t[k + 2]);
            }
            if keyword_at(t, k, "instance"@) {
                assert(t.subrange(k, k + 8)[0] == t[k]);
                assert(t.subrange(k, k + 8)[1] == t[k + 1]);
                assert(t.subrange(k, k + 8)[2] == t[k + 2]);
            }
            if keyword_at(t, k, "class"@) {
                assert(t.subrange(k, k + 5)[0] == t[k]);
                assert(t.subrange(k, k + 5)[1] == t[k + 1]);
                assert(t.subrange(k, k + 5)[2] == t[k + 2]);
            }
            if keyword_at(t, k, "abbrev"@) {
                assert(t.subrange(k, k + 6)[0] == t[k]);
                assert(t.subrange(k, k + 6)[1] == t[k + 1]);
                assert(t.subrange(k, k + 6)[2] == t[k + 2]);
            }
        }
        if self.peek_keyword("inductive") {
            self.inductive_command(term)
        } else if self.peek_keyword("structure") {
            self.structure_command(term, atom)
        } else if self.peek_keyword("def") {
            self.def_command(attrs, term)
        } else if self.peek_keyword("theorem") {
            self.theorem_command(term)
        } else if self.peek_keyword("axiom") {
            self.axiom_command(term)
        } else if self.peek_keyword("constant") {
            self.constant_command(term)
        } else if self.peek_keyword("variable") {
            self.variable_command(term)
        } else if self.peek_keyword("instance") {
            self.instance_command(term, atom)
        } else if self.peek_keyword("class") {
            self.class_command(term, atom)
        } else if self.peek_keyword("abbrev") {
            self.abbrev_command(term)
        } else {
            let e = ParseError::expected("mutual declaration", self.position());
            proof {
                reveal_strlit("mutual declaration");
            }
            Err(e)
        }
    }
}

} // verus!
