//! `match` expressions: `match e with | pat => rhs | pat if guard => rhs`.
use vstd::prelude::*;
use crate::declarations::node_of;
use crate::definitions::{OptPart, opt_part, part_end, part_syntax};
use crate::error::{ParseError, ParserResult, is_expected};
use crate::interpolation::TermCall;
use crate::parser::{Parser, keyword_at};
use crate::scan::{lemma_trivia_end, trivia_end};
use crate::syntax::{pos_at, Syntax, SyntaxKind};
use crate::tactics::keyword_missing;

verus! {

/// Where the right-hand side of an arm may start after the arrow `=>` or
/// `⇒` at `n`; -1 where no arrow stands there.
pub open spec fn after_arm_arrow(t: Seq<char>, n: int) -> int {
    if 0 <= n && n + 1 < t.len() && t[n] == '=' && t[n + 1] == '>' {
        n + 2
    } else if 0 <= n < t.len() && t[n] == '⇒' {
        n + 1
    } else {
        -1
    }
}

/// What `match_arm` returns from `p`, given the calls of the pattern parser
/// (`pcalls`) and of the term parser (`tcalls`): a pattern read by the
/// pattern call, whitespace and comments, optionally `if`, whitespace and
/// comments, a guard read by a term call and whitespace and comments, then
/// `=>` or `⇒`, whitespace and comments, and the right-hand side read by
/// the last term call; a `MatchArm` node whose children are the pattern,
/// the guard where one was given, and the right-hand side.
pub open spec fn arm_result(p: Parser, q: Parser, r: ParserResult<Syntax>, pcalls: Seq<TermCall>, tcalls: Seq<TermCall>) -> bool {
    let t = p.text();
    let i = p.offset() as int;
    &&& q.text() == t
    &&& pcalls.len() == 1
    &&& pcalls[0].start == i
    &&& match pcalls[0].result {
        Err(e) => tcalls.len() == 0 && q.offset() == pcalls[0].end && r == Err::<Syntax, Box<ParseError>>(e),
        Ok(pat) => {
            let g = trivia_end(t, pcalls[0].end);
            let has_guard = keyword_at(t, g, "if"@);
            let o = opt_part(has_guard, trivia_end(t, g + 2), tcalls);
            match o {
                OptPart::Stuck => false,
                OptPart::Failed(e, at) => tcalls.len() == 1 && q.offset() == at && r == Err::<Syntax, Box<ParseError>>(e),
                _ => {
                    let tc1 = if has_guard { tcalls.drop_first() } else { tcalls };
                    let n = if has_guard { trivia_end(t, part_end(o, g)) } else { g };
                    let after = after_arm_arrow(t, n);
                    if after < 0 {
                        &&& tc1.len() == 0
                        &&& q.offset() == n
                        &&& r matches Err(e) && is_expected(*e, "=> or ⇒"@, pos_at(t, n as nat))
                    } else if tc1.len() != 1 || tc1[0].start != trivia_end(t, after) {
                        false
                    } else {
                        &&& q.offset() == tc1[0].end
                        &&& match tc1[0].result {
                            Err(e) => r == Err::<Syntax, Box<ParseError>>(e),
                            Ok(x) => node_of(r, t, i, tc1[0].end, SyntaxKind::MatchArm, seq![pat] + part_syntax(o) + seq![x]),
                        }
                    }
                },
            }
        },
    }
}

/// An arm that was read: where it started and ended, its syntax, and the
/// calls of the pattern parser and of the term parser it made.
pub ghost struct ArmStep {
    pub start: int,
    pub end: int,
    pub result: Syntax,
    pub pcalls: Seq<TermCall>,
    pub tcalls: Seq<TermCall>,
}

/// How reading the arms ended: at the index given, where no `|` stands; or
/// with an arm that failed, with where it started, its calls of both kinds,
/// its error, and where the cursor was left.
pub ghost enum ArmPhase {
    Ended(int),
    Failed(int, Seq<TermCall>, Seq<TermCall>, Box<ParseError>, int),
}

/// The step is an arm (see `arm_result`).
#[verifier::opaque]
pub open spec fn arm_ok(t: Seq<char>, st: ArmStep) -> bool {
    exists|b: Parser, q: Parser|
        #[trigger] arm_result(b, q, Ok::<Syntax, Box<ParseError>>(st.result), st.pcalls, st.tcalls) && b.text() == t
            && b.offset() == st.start && q.offset() == st.end
}

/// `|` stands at `k`.
pub open spec fn pipe_at(t: Seq<char>, k: int) -> bool {
    0 <= k < t.len() && t[k] == '|'
}

/// Where the cursor stands before arm `m` of `steps`, the arms starting at
/// `a`: at `a` for the first; right after the first arm where it came
/// without `|` (`first`); else after the whitespace and comments that follow
/// the arm before.
pub open spec fn arm_pre(t: Seq<char>, a: int, first: bool, steps: Seq<ArmStep>, m: int) -> int {
    if m == 0 {
        a
    } else if m == 1 && first {
        steps[0].end
    } else {
        trivia_end(t, steps[m - 1].end)
    }
}

/// Where arm `m` starts: at `a` for a first arm without `|`; else after the
/// `|` before it and whitespace and comments.
pub open spec fn arm_start(t: Seq<char>, a: int, first: bool, steps: Seq<ArmStep>, m: int) -> int {
    if m == 0 && first {
        a
    } else {
        trivia_end(t, arm_pre(t, a, first, steps, m) + 1)
    }
}

/// The arms from `a`: a first one without `|` unless `|` stands at `a`,
/// then one after each `|`, ended as `phase` says.
pub open spec fn arms_valid(t: Seq<char>, a: int, steps: Seq<ArmStep>, phase: ArmPhase) -> bool {
    let first = !pipe_at(t, a);
    let n = steps.len() as int;
    &&& forall|m: int|
        0 <= m < n ==> {
            &&& #[trigger] steps[m].start == arm_start(t, a, first, steps, m)
            &&& (m > 0 || !first) ==> pipe_at(t, arm_pre(t, a, first, steps, m))
            &&& arm_ok(t, steps[m])
        }
    &&& match phase {
        ArmPhase::Ended(kb) => {
            &&& kb == arm_pre(t, a, first, steps, n)
            &&& !pipe_at(t, kb)
            &&& first ==> n >= 1
        },
        ArmPhase::Failed(st, pc, tc, err, at) => {
            &&& (n > 0 || !first) ==> pipe_at(t, arm_pre(t, a, first, steps, n))
            &&& st == arm_start(t, a, first, steps, n)
            &&& exists|b: Parser, q: Parser|
                #[trigger] arm_result(b, q, Err::<Syntax, Box<ParseError>>(err), pc, tc) && b.text() == t && b.offset() == st
                    && q.offset() == at
        },
    }
}

/// The calls of the pattern parser that the arms made, in order.
pub open spec fn arm_pflat(steps: Seq<ArmStep>) -> Seq<TermCall>
    decreases steps.len(),
{
    if steps.len() == 0 {
        Seq::empty()
    } else {
        arm_pflat(steps.drop_last()) + steps.last().pcalls
    }
}

/// The calls of the term parser that the arms made, in order.
pub open spec fn arm_tflat(steps: Seq<ArmStep>) -> Seq<TermCall>
    decreases steps.len(),
{
    if steps.len() == 0 {
        Seq::empty()
    } else {
        arm_tflat(steps.drop_last()) + steps.last().tcalls
    }
}

/// The syntax of the arms, in order.
pub open spec fn arm_results(steps: Seq<ArmStep>) -> Seq<Syntax> {
    steps.map_values(|st: ArmStep| st.result)
}

/// What `match_expr` returns from `p`, given the calls of the pattern
/// parser and of the term parser and the arms read: `match`, whitespace
/// and comments, the scrutinee read by the first term call, whitespace and
/// comments, `with`, whitespace and comments, and the arms (see
/// `arms_valid`); a `Match` node whose children are the scrutinee and the
/// arms.
pub open spec fn match_result(
    p: Parser,
    q: Parser,
    r: ParserResult<Syntax>,
    pcalls: Seq<TermCall>,
    tcalls: Seq<TermCall>,
    steps: Seq<ArmStep>,
    phase: ArmPhase,
) -> bool {
    let t = p.text();
    let i = p.offset() as int;
    let k = trivia_end(t, i + 5);
    &&& q.text() == t
    &&& if !keyword_at(t, i, "match"@) {
        pcalls.len() == 0 && tcalls.len() == 0 && keyword_missing(p, q, r, "match"@)
    } else {
        &&& tcalls.len() >= 1
        &&& tcalls[0].start == k
        &&& match tcalls[0].result {
            Err(e) => tcalls.len() == 1 && pcalls.len() == 0 && q.offset() == tcalls[0].end && r == Err::<Syntax, Box<ParseError>>(e),
            Ok(x) => {
                let w = trivia_end(t, tcalls[0].end);
                if !keyword_at(t, w, "with"@) {
                    &&& tcalls.len() == 1
                    &&& pcalls.len() == 0
                    &&& q.offset() == w
                    &&& r matches Err(e) && is_expected(*e, "keyword 'with'"@, pos_at(t, w as nat))
                } else {
                    let rest = tcalls.drop_first();
                    &&& arms_valid(t, trivia_end(t, w + 4), steps, phase)
                    &&& match phase {
                        ArmPhase::Ended(kb) => {
                            &&& pcalls == arm_pflat(steps)
                            &&& rest == arm_tflat(steps)
                            &&& q.offset() == kb
                            &&& node_of(r, t, i, kb, SyntaxKind::Match, seq![x] + arm_results(steps))
                        },
                        ArmPhase::Failed(_, pc, tc, err, at) => {
                            &&& pcalls == arm_pflat(steps) + pc
                            &&& rest == arm_tflat(steps) + tc
                            &&& q.offset() == at
                            &&& r == Err::<Syntax, Box<ParseError>>(err)
                        },
                    }
                }
            },
        }
    }
}

/// The arms `steps` were read from `a` and the cursor stands at `k` after
/// them; `v` is their syntax.
pub open spec fn arms_so_far(t: Seq<char>, a: int, steps: Seq<ArmStep>, k: int, v: Seq<Syntax>) -> bool {
    let first = !pipe_at(t, a);
    let n = steps.len() as int;
    &&& forall|m: int|
        0 <= m < n ==> {
            &&& #[trigger] steps[m].start == arm_start(t, a, first, steps, m)
            &&& (m > 0 || !first) ==> pipe_at(t, arm_pre(t, a, first, steps, m))
            &&& arm_ok(t, steps[m])
        }
    &&& k == arm_pre(t, a, first, steps, n)
    &&& first ==> n >= 1
    &&& v == arm_results(steps)
}

/// What reading the arms from `p` gives: the arms `steps`, ended as `phase`
/// says; on success their syntax, in order.
pub open spec fn arms_result(
    p: Parser,
    q: Parser,
    r: ParserResult<Vec<Syntax>>,
    pcalls: Seq<TermCall>,
    tcalls: Seq<TermCall>,
    steps: Seq<ArmStep>,
    phase: ArmPhase,
) -> bool {
    let t = p.text();
    &&& q.text() == t
    &&& arms_valid(t, p.offset() as int, steps, phase)
    &&& match phase {
        ArmPhase::Ended(kb) => {
            &&& pcalls == arm_pflat(steps)
            &&& tcalls == arm_tflat(steps)
            &&& q.offset() == kb
            &&& r matches Ok(v) && v@ == arm_results(steps)
        },
        ArmPhase::Failed(_, pc, tc, err, at) => {
            &&& pcalls == arm_pflat(steps) + pc
            &&& tcalls == arm_tflat(steps) + tc
            &&& q.offset() == at
            &&& r == Err::<Vec<Syntax>, Box<ParseError>>(err)
        },
    }
}

/// Arms read so far that end where no `|` follows are a complete list.
proof fn lemma_arms_ended(t: Seq<char>, a: int, steps: Seq<ArmStep>, kb: int, v: Seq<Syntax>)
    requires
        arms_so_far(t, a, steps, kb, v),
        !pipe_at(t, kb),
    ensures
        arms_valid(t, a, steps, ArmPhase::Ended(kb)),
        v == arm_results(steps),
{
    let first = !pipe_at(t, a);
    assert forall|m: int| 0 <= m < steps.len() implies {
        &&& #[trigger] steps[m].start == arm_start(t, a, first, steps, m)
        &&& (m > 0 || !first) ==> pipe_at(t, arm_pre(t, a, first, steps, m))
        &&& arm_ok(t, steps[m])
    } by {
        assert(steps[m].start == arm_start(t, a, first, steps, m));
        assert((m > 0 || !first) ==> pipe_at(t, arm_pre(t, a, first, steps, m)));
        assert(arm_ok(t, steps[m]));
    }
}

/// Arms read so far, followed by a `|` and an arm that failed, make a list
/// that failed there.
proof fn lemma_arms_failed(t: Seq<char>, a: int, steps: Seq<ArmStep>, k: int, v: Seq<Syntax>, phase: ArmPhase)
    requires
        arms_so_far(t, a, steps, k, v),
        pipe_at(t, k),
        phase is Failed,
        phase->Failed_0 == arm_start(t, a, !pipe_at(t, a), steps, steps.len() as int),
        exists|b: Parser, q: Parser|
            #[trigger] arm_result(b, q, Err::<Syntax, Box<ParseError>>(phase->Failed_3), phase->Failed_1, phase->Failed_2)
                && b.text() == t && b.offset() == phase->Failed_0 && q.offset() == phase->Failed_4,
    ensures
        arms_valid(t, a, steps, phase),
{
    let first = !pipe_at(t, a);
    assert forall|m: int| 0 <= m < steps.len() implies {
        &&& #[trigger] steps[m].start == arm_start(t, a, first, steps, m)
        &&& (m > 0 || !first) ==> pipe_at(t, arm_pre(t, a, first, steps, m))
        &&& arm_ok(t, steps[m])
    } by {
        assert(steps[m].start == arm_start(t, a, first, steps, m));
        assert((m > 0 || !first) ==> pipe_at(t, arm_pre(t, a, first, steps, m)));
        assert(arm_ok(t, steps[m]));
    }
    assert(arm_pre(t, a, first, steps, steps.len() as int) == k);
    let n = steps.len() as int;
    assert(forall|m: int|
        0 <= m < n ==> {
            &&& #[trigger] steps[m].start == arm_start(t, a, first, steps, m)
            &&& (m > 0 || !first) ==> pipe_at(t, arm_pre(t, a, first, steps, m))
            &&& arm_ok(t, steps[m])
        });
    assert(match phase {
        ArmPhase::Ended(kb) => {
            &&& kb == arm_pre(t, a, first, steps, n)
            &&& !pipe_at(t, kb)
            &&& first ==> n >= 1
        },
        ArmPhase::Failed(st, pc, tc, err, at) => {
            &&& (n > 0 || !first) ==> pipe_at(t, arm_pre(t, a, first, steps, n))
            &&& st == arm_start(t, a, first, steps, n)
            &&& exists|b: Parser, q: Parser|
                #[trigger] arm_result(b, q, Err::<Syntax, Box<ParseError>>(err), pc, tc) && b.text() == t && b.offset() == st
                    && q.offset() == at
        },
    });
}

impl Parser {
    /// An arm of a `match`: `pattern [if guard] => rhs` (see `arm_result`;
    /// the calls are ones that `pattern` and `term` can make).
    #[verifier::spinoff_prover]
    #[verifier::rlimit(40)]
    pub fn match_arm<P, F>(&mut self, pattern: P, term: F) -> (r: ParserResult<Syntax>) where
        P: Fn(&mut Parser) -> ParserResult<Syntax>,
        F: Fn(&mut Parser) -> ParserResult<Syntax>,
        requires
            old(self).wf(),
            forall|q: &mut Parser| q.wf() ==> pattern.requires((q,)),
            forall|q: &mut Parser, x: ParserResult<Syntax>|
                pattern.ensures((q,), x) ==> {
                    &&& final(q).wf()
                    &&& final(q).text() == q.text()
                    &&& final(q).offset() >= q.offset()
                },
            forall|q: &mut Parser| q.wf() ==> term.requires((q,)),
            forall|q: &mut Parser, x: ParserResult<Syntax>|
                term.ensures((q,), x) ==> {
                    &&& final(q).wf()
                    &&& final(q).text() == q.text()
                    &&& final(q).offset() >= q.offset()
                },
        ensures
            final(self).wf(),
            final(self).offset() >= old(self).offset(),
            exists|pcalls: Seq<TermCall>, tcalls: Seq<TermCall>|
                #![trigger arm_result(*old(self), *final(self), r, pcalls, tcalls)]
                {
                    &&& arm_result(*old(self), *final(self), r, pcalls, tcalls)
                    &&& forall|j: int|
                        #![trigger pcalls[j]]
                        0 <= j < pcalls.len() ==> exists|q: &mut Parser|
                            #![trigger pattern.ensures((q,), pcalls[j].result)]
                            {
                                &&& q.text() == old(self).text()
                                &&& q.offset() == pcalls[j].start
                                &&& final(q).offset() == pcalls[j].end
                                &&& pattern.ensures((q,), pcalls[j].result)
                            }
                    &&& forall|j: int|
                        #![trigger tcalls[j]]
                        0 <= j < tcalls.len() ==> exists|q: &mut Parser|
                            #![trigger term.ensures((q,), tcalls[j].result)]
                            {
                                &&& q.text() == old(self).text()
                                &&& q.offset() == tcalls[j].start
                                &&& final(q).offset() == tcalls[j].end
                                &&& term.ensures((q,), tcalls[j].result)
                            }
                },
    {
        proof {
            self.lemma_wf();
            reveal_strlit("if");
            reveal_strlit("=> or ⇒");
        }
        let ghost t = self.text();
        let ghost i = self.offset() as int;
        let ghost none: Seq<TermCall> = Seq::empty();
        let start = self.position();
        let resp = pattern(self);
        proof { self.lemma_wf(); }
        let ghost pcalls = seq![TermCall { start: i, end: self.offset() as int, result: resp }];
        let pat = match resp {
            Ok(x) => x,
            Err(e) => {
                proof { assert(arm_result(*old(self), *self, Err::<Syntax, Box<ParseError>>(e), pcalls, none)); }
                return Err(e);
            },
        };
        let ghost gp = pat;
        let mut children: Vec<Syntax> = Vec::new();
        children.push(pat);
        let ghost pe = self.offset() as int;
        self.skip_whitespace();
        proof {
            lemma_trivia_end(t, pe);
            self.lemma_wf();
        }
        let ghost g = self.offset() as int;
        let ghost mut tc0: Seq<TermCall> = Seq::empty();
        let ghost mut guard: Seq<Syntax> = Seq::empty();
        if self.peek_keyword("if") {
            let _ = self.keyword("if");
            self.skip_whitespace();
            proof {
                lemma_trivia_end(t, g + 2);
                self.lemma_wf();
            }
            let ghost c = self.offset() as int;
            let res = term(self);
            proof {
                self.lemma_wf();
                tc0 = seq![TermCall { start: c, end: self.offset() as int, result: res }];
            }
            let x = match res {
                Ok(x) => x,
                Err(e) => {
                    proof { assert(arm_result(*old(self), *self, Err::<Syntax, Box<ParseError>>(e), pcalls, tc0)); }
                    return Err(e);
                },
            };
            proof { guard = seq![x]; }
            children.push(x);
            let ghost ge = self.offset() as int;
            self.skip_whitespace();
            proof {
                lemma_trivia_end(t, ge);
                self.lemma_wf();
            }
        }
        if self.peek() == Some('=') && self.peek_nth(1) == Some('>') {
            self.advance();
            self.advance();
        } else if self.peek() == Some('⇒') {
            self.advance();
        } else {
            let e = ParseError::expected("=> or ⇒", self.position());
            proof { assert(arm_result(*old(self), *self, Err::<Syntax, Box<ParseError>>(e), pcalls, tc0)); }
            return Err(e);
        }
        let ghost a = self.offset() as int;
        self.skip_whitespace();
        proof {
            lemma_trivia_end(t, a);
            self.lemma_wf();
        }
        let ghost c = self.offset() as int;
        let res = term(self);
        proof { self.lemma_wf(); }
        let ghost tcalls = tc0.push(TermCall { start: c, end: self.offset() as int, result: res });
        proof {
            assert((if tc0.len() == 1 { tcalls.drop_first() } else { tcalls }) =~= seq![tcalls.last()]);
            assert forall|jj: int| #![trigger tcalls[jj]] 0 <= jj < tcalls.len() implies exists|q: &mut Parser|
                #![trigger term.ensures((q,), tcalls[jj].result)]
                {
                    &&& q.text() == t
                    &&& q.offset() == tcalls[jj].start
                    &&& final(q).offset() == tcalls[jj].end
                    &&& term.ensures((q,), tcalls[jj].result)
                } by {
                if jj < tc0.len() {
                    assert(tcalls[jj] == tc0[jj]);
                }
            }
        }
        let x = match res {
            Ok(x) => x,
            Err(e) => {
                proof { assert(arm_result(*old(self), *self, Err::<Syntax, Box<ParseError>>(e), pcalls, tcalls)); }
                return Err(e);
            },
        };
        let ghost gx = x;
        children.push(x);
        let ghost cs = children@;
        let range = self.input().range_from(start);
        let node = self.create_node(SyntaxKind::MatchArm, range, children);
        proof {
            assert(cs =~= seq![gp] + guard + seq![gx]);
            assert(arm_result(*old(self), *self, Ok::<Syntax, Box<ParseError>>(node), pcalls, tcalls));
        }
        Ok(node)
    }

    /// The arms of a `match` at the cursor: a first one unless `|` stands
    /// there, then one after each `|`, each but a first one without `|`
    /// followed by whitespace and comments (see `arms_result`).
    #[verifier::spinoff_prover]
    #[verifier::rlimit(100)]
    fn parse_arms<P, F>(&mut self, pattern: P, term: F) -> (r: ParserResult<Vec<Syntax>>) where
        P: Fn(&mut Parser) -> ParserResult<Syntax> + Copy,
        F: Fn(&mut Parser) -> ParserResult<Syntax> + Copy,
        requires
            old(self).wf(),
            forall|q: &mut Parser| q.wf() ==> pattern.requires((q,)),
            forall|q: &mut Parser, x: ParserResult<Syntax>|
                pattern.ensures((q,), x) ==> {
                    &&& final(q).wf()
                    &&& final(q).text() == q.text()
                    &&& final(q).offset() >= q.offset()
                },
            forall|q: &mut Parser| q.wf() ==> term.requires((q,)),
            forall|q: &mut Parser, x: ParserResult<Syntax>|
                term.ensures((q,), x) ==> {
                    &&& final(q).wf()
                    &&& final(q).text() == q.text()
                    &&& final(q).offset() >= q.offset()
                },
        ensures
            final(self).wf(),
            exists|pcalls: Seq<TermCall>, tcalls: Seq<TermCall>, steps: Seq<ArmStep>, phase: ArmPhase|
                #![trigger arms_result(*old(self), *final(self), r, pcalls, tcalls, steps, phase)]
                {
                    &&& arms_result(*old(self), *final(self), r, pcalls, tcalls, steps, phase)
                    &&& forall|j: int|
                        #![trigger pcalls[j]]
                        0 <= j < pcalls.len() ==> exists|q: &mut Parser|
                            #![trigger pattern.ensures((q,), pcalls[j].result)]
                            {
                                &&& q.text() == old(self).text()
                                &&& q.offset() == pcalls[j].start
                                &&& final(q).offset() == pcalls[j].end
                                &&& pattern.ensures((q,), pcalls[j].result)
                            }
                    &&& forall|j: int|
                        #![trigger tcalls[j]]
                        0 <= j < tcalls.len() ==> exists|q: &mut Parser|
                            #![trigger term.ensures((q,), tcalls[j].result)]
                            {
                                &&& q.text() == old(self).text()
                                &&& q.offset() == tcalls[j].start
                                &&& final(q).offset() == tcalls[j].end
                                &&& term.ensures((q,), tcalls[j].result)
                            }
                },
    {
        proof { self.lemma_wf(); }
        let ghost t = self.text();
        let ghost a = self.offset() as int;
        let first = self.peek() != Some('|');
        let mut arms: Vec<Syntax> = Vec::new();
        if first {
            let ghost p1 = *self;
            let res = self.match_arm(pattern, term);
            let ghost q1 = *self;
            let ghost (pc, tc) = choose|pc: Seq<TermCall>, tc: Seq<TermCall>|
                {
                    &&& arm_result(p1, q1, res, pc, tc)
                    &&& forall|j: int|
                        #![trigger pc[j]]
                        0 <= j < pc.len() ==> exists|q: &mut Parser|
                            #![trigger pattern.ensures((q,), pc[j].result)]
                            {
                                &&& q.text() == t
                                &&& q.offset() == pc[j].start
                                &&& final(q).offset() == pc[j].end
                                &&& pattern.ensures((q,), pc[j].result)
                            }
                    &&& forall|j: int|
                        #![trigger tc[j]]
                        0 <= j < tc.len() ==> exists|q: &mut Parser|
                            #![trigger term.ensures((q,), tc[j].result)]
                            {
                                &&& q.text() == t
                                &&& q.offset() == tc[j].start
                                &&& final(q).offset() == tc[j].end
                                &&& term.ensures((q,), tc[j].result)
                            }
                };
            proof { self.lemma_wf(); }
            let x = match res {
                Ok(x) => x,
                Err(e) => {
                    proof {
                        let nosteps = Seq::<ArmStep>::empty();
                        let phase = ArmPhase::Failed(a, pc, tc, e, self.offset() as int);
                        assert(arm_pflat(nosteps) + pc =~= pc);
                        assert(arm_tflat(nosteps) + tc =~= tc);
                        assert(arm_result(p1, q1, Err::<Syntax, Box<ParseError>>(phase->Failed_3), phase->Failed_1, phase->Failed_2));
                        assert(arms_result(*old(self), *self, Err::<Vec<Syntax>, Box<ParseError>>(e), pc, tc, nosteps, phase));
                    }
                    return Err(e);
                },
            };
            arms.push(x);
            proof {
                let step = ArmStep { start: a, end: q1.offset() as int, result: x, pcalls: pc, tcalls: tc };
                let steps1 = seq![step];
                assert(steps1.drop_last() =~= Seq::<ArmStep>::empty());
                assert(arm_pflat(Seq::<ArmStep>::empty()) =~= Seq::<TermCall>::empty());
                assert(arm_tflat(Seq::<ArmStep>::empty()) =~= Seq::<TermCall>::empty());
                assert(arm_pflat(steps1) =~= pc);
                assert(arm_tflat(steps1) =~= tc);
                assert(arm_result(p1, q1, Ok::<Syntax, Box<ParseError>>(step.result), step.pcalls, step.tcalls));
                assert(arm_ok(t, step)) by {
                    reveal(arm_ok);
                }
                assert(steps1[0] == step);
                assert(arms@ =~= arm_results(steps1));
                assert(arms_so_far(t, a, steps1, self.offset() as int, arms@));
            }
        } else {
            proof {
                assert(arms@ =~= arm_results(Seq::<ArmStep>::empty()));
                assert(arms_so_far(t, a, Seq::<ArmStep>::empty(), self.offset() as int, arms@));
                assert(arm_pflat(Seq::<ArmStep>::empty()).len() == 0);
                assert(arm_tflat(Seq::<ArmStep>::empty()).len() == 0);
            }
        }
        while self.peek() == Some('|')
            invariant
                self.wf(),
                t == self.text(),
                t == old(self).text(),
                a == old(self).offset(),
                a <= self.offset() <= t.len(),
                forall|q: &mut Parser| q.wf() ==> pattern.requires((q,)),
                forall|q: &mut Parser, x: ParserResult<Syntax>|
                    pattern.ensures((q,), x) ==> {
                        &&& final(q).wf()
                        &&& final(q).text() == q.text()
                        &&& final(q).offset() >= q.offset()
                    },
                forall|q: &mut Parser| q.wf() ==> term.requires((q,)),
                forall|q: &mut Parser, x: ParserResult<Syntax>|
                    term.ensures((q,), x) ==> {
                        &&& final(q).wf()
                        &&& final(q).text() == q.text()
                        &&& final(q).offset() >= q.offset()
                    },
                exists|steps: Seq<ArmStep>|
                    #![trigger arms_so_far(t, a, steps, self.offset() as int, arms@)]
                    {
                        &&& arms_so_far(t, a, steps, self.offset() as int, arms@)
                        &&& forall|j: int|
                            #![trigger arm_pflat(steps)[j]]
                            0 <= j < arm_pflat(steps).len() ==> exists|q: &mut Parser|
                                #![trigger pattern.ensures((q,), arm_pflat(steps)[j].result)]
                                {
                                    &&& q.text() == t
                                    &&& q.offset() == arm_pflat(steps)[j].start
                                    &&& final(q).offset() == arm_pflat(steps)[j].end
                                    &&& pattern.ensures((q,), arm_pflat(steps)[j].result)
                                }
                        &&& forall|j: int|
                            #![trigger arm_tflat(steps)[j]]
                            0 <= j < arm_tflat(steps).len() ==> exists|q: &mut Parser|
                                #![trigger term.ensures((q,), arm_tflat(steps)[j].result)]
                                {
                                    &&& q.text() == t
                                    &&& q.offset() == arm_tflat(steps)[j].start
                                    &&& final(q).offset() == arm_tflat(steps)[j].end
                                    &&& term.ensures((q,), arm_tflat(steps)[j].result)
                                }
                    },
            decreases t.len() - self.offset(),
        {
            proof { self.lemma_wf(); }
            let ghost k = self.offset() as int;
            let ghost v0 = arms@;
            let ghost steps0 = choose|steps: Seq<ArmStep>|
                {
                    &&& arms_so_far(t, a, steps, k, v0)
                    &&& forall|j: int|
                        #![trigger arm_pflat(steps)[j]]
                        0 <= j < arm_pflat(steps).len() ==> exists|q: &mut Parser|
                            #![trigger pattern.ensures((q,), arm_pflat(steps)[j].result)]
                            {
                                &&& q.text() == t
                                &&& q.offset() == arm_pflat(steps)[j].start
                                &&& final(q).offset() == arm_pflat(steps)[j].end
                                &&& pattern.ensures((q,), arm_pflat(steps)[j].result)
                            }
                    &&& forall|j: int|
                        #![trigger arm_tflat(steps)[j]]
                        0 <= j < arm_tflat(steps).len() ==> exists|q: &mut Parser|
                            #![trigger term.ensures((q,), arm_tflat(steps)[j].result)]
                            {
                                &&& q.text() == t
                                &&& q.offset() == arm_tflat(steps)[j].start
                                &&& final(q).offset() == arm_tflat(steps)[j].end
                                &&& term.ensures((q,), arm_tflat(steps)[j].result)
                            }
                };
            self.advance();
            self.skip_whitespace();
            proof {
                lemma_trivia_end(t, k + 1);
                self.lemma_wf();
            }
            let ghost st = self.offset() as int;
            let ghost p1 = *self;
            let res = self.match_arm(pattern, term);
            let ghost q1 = *self;
            let ghost (pc, tc) = choose|pc: Seq<TermCall>, tc: Seq<TermCall>|
                {
                    &&& arm_result(p1, q1, res, pc, tc)
                    &&& forall|j: int|
                        #![trigger pc[j]]
                        0 <= j < pc.len() ==> exists|q: &mut Parser|
                            #![trigger pattern.ensures((q,), pc[j].result)]
                            {
                                &&& q.text() == t
                                &&& q.offset() == pc[j].start
                                &&& final(q).offset() == pc[j].end
                                &&& pattern.ensures((q,), pc[j].result)
                            }
                    &&& forall|j: int|
                        #![trigger tc[j]]
                        0 <= j < tc.len() ==> exists|q: &mut Parser|
                            #![trigger term.ensures((q,), tc[j].result)]
                            {
                                &&& q.text() == t
                                &&& q.offset() == tc[j].start
                                &&& final(q).offset() == tc[j].end
                                &&& term.ensures((q,), tc[j].result)
                            }
                };
            let ghost allp = arm_pflat(steps0) + pc;
            let ghost allt = arm_tflat(steps0) + tc;
            proof {
                self.lemma_wf();
                assert forall|j: int| #![trigger allp[j]] 0 <= j < allp.len() implies exists|q: &mut Parser|
                    #![trigger pattern.ensures((q,), allp[j].result)]
                    {
                        &&& q.text() == t
                        &&& q.offset() == allp[j].start
                        &&& final(q).offset() == allp[j].end
                        &&& pattern.ensures((q,), allp[j].result)
                    } by {
                    if j < arm_pflat(steps0).len() {
                        assert(allp[j] == arm_pflat(steps0)[j]);
                    } else {
                        assert(allp[j] == pc[j - arm_pflat(steps0).len()]);
                    }
                }
                assert forall|j: int| #![trigger allt[j]] 0 <= j < allt.len() implies exists|q: &mut Parser|
                    #![trigger term.ensures((q,), allt[j].result)]
                    {
                        &&& q.text() == t
                        &&& q.offset() == allt[j].start
                        &&& final(q).offset() == allt[j].end
                        &&& term.ensures((q,), allt[j].result)
                    } by {
                    if j < arm_tflat(steps0).len() {
                        assert(allt[j] == arm_tflat(steps0)[j]);
                    } else {
                        assert(allt[j] == tc[j - arm_tflat(steps0).len()]);
                    }
                }
            }
            let x = match res {
                Ok(x) => x,
                Err(e) => {
                    proof {
                        let phase = ArmPhase::Failed(st, pc, tc, e, self.offset() as int);
                        let first = !pipe_at(t, a);
                        let n = steps0.len() as int;
                        assert(arm_result(p1, q1, Err::<Syntax, Box<ParseError>>(phase->Failed_3), phase->Failed_1, phase->Failed_2));
                        assert(arm_pre(t, a, first, steps0, n) == k);
                        assert(pipe_at(t, k));
                        assert(st == arm_start(t, a, first, steps0, n));
                        assert(forall|m: int|
                            0 <= m < n ==> {
                                &&& #[trigger] steps0[m].start == arm_start(t, a, first, steps0, m)
                                &&& (m > 0 || !first) ==> pipe_at(t, arm_pre(t, a, first, steps0, m))
                                &&& arm_ok(t, steps0[m])
                            });
                        assert((n > 0 || !first) ==> pipe_at(t, arm_pre(t, a, first, steps0, n)));
                        assert(phase->Failed_0 == arm_start(t, a, first, steps0, n));
                        assert(exists|b: Parser, q: Parser|
                            #[trigger] arm_result(b, q, Err::<Syntax, Box<ParseError>>(phase->Failed_3), phase->Failed_1, phase->Failed_2) && b.text() == t && b.offset() == phase->Failed_0
                                && q.offset() == phase->Failed_4);
                        lemma_arms_failed(t, a, steps0, k, v0, phase);
                        assert(arms_result(*old(self), *self, Err::<Vec<Syntax>, Box<ParseError>>(e), allp, allt, steps0, phase));
                    }
                    return Err(e);
                },
            };
            let ghost e = self.offset() as int;
            let ghost step = ArmStep { start: st, end: e, result: x, pcalls: pc, tcalls: tc };
            arms.push(x);
            self.skip_whitespace();
            proof {
                lemma_trivia_end(t, e);
                self.lemma_wf();
                let first = !pipe_at(t, a);
                let steps1 = steps0.push(step);
                assert(steps1.drop_last() =~= steps0);
                assert(arm_pflat(steps1) == allp);
                assert(arm_tflat(steps1) == allt);
                assert(arm_result(p1, q1, Ok::<Syntax, Box<ParseError>>(step.result), step.pcalls, step.tcalls));
                assert(arm_ok(t, step)) by {
                    reveal(arm_ok);
                }
                assert forall|m: int| 0 <= m < steps1.len() implies {
                    &&& #[trigger] steps1[m].start == arm_start(t, a, first, steps1, m)
                    &&& (m > 0 || !first) ==> pipe_at(t, arm_pre(t, a, first, steps1, m))
                    &&& arm_ok(t, steps1[m])
                } by {
                    if m < steps0.len() {
                        assert(steps1[m] == steps0[m]);
                        if m > 0 {
                            assert(steps1[m - 1] == steps0[m - 1]);
                            assert(steps1[0] == steps0[0]);
                        }
                        assert(steps0[m].start == arm_start(t, a, first, steps0, m));
                    } else {
                        if m > 0 {
                            assert(steps1[m - 1] == steps0[m - 1]);
                            assert(steps1[0] == steps0[0]);
                        }
                    }
                }
                assert(arms@ =~= arm_results(steps1));
                assert(arms_so_far(t, a, steps1, self.offset() as int, arms@));
            }
        }
        let ghost kb = self.offset() as int;
        let ghost steps = choose|steps: Seq<ArmStep>|
            {
                &&& arms_so_far(t, a, steps, kb, arms@)
                &&& forall|j: int|
                    #![trigger arm_pflat(steps)[j]]
                    0 <= j < arm_pflat(steps).len() ==> exists|q: &mut Parser|
                        #![trigger pattern.ensures((q,), arm_pflat(steps)[j].result)]
                        {
                            &&& q.text() == t
                            &&& q.offset() == arm_pflat(steps)[j].start
                            &&& final(q).offset() == arm_pflat(steps)[j].end
                            &&& pattern.ensures((q,), arm_pflat(steps)[j].result)
                        }
                &&& forall|j: int|
                    #![trigger arm_tflat(steps)[j]]
                    0 <= j < arm_tflat(steps).len() ==> exists|q: &mut Parser|
                        #![trigger term.ensures((q,), arm_tflat(steps)[j].result)]
                        {
                            &&& q.text() == t
                            &&& q.offset() == arm_tflat(steps)[j].start
                            &&& final(q).offset() == arm_tflat(steps)[j].end
                            &&& term.ensures((q,), arm_tflat(steps)[j].result)
                        }
            };
        let r = Ok(arms);
        proof {
            lemma_arms_ended(t, a, steps, kb, arms@);
            assert(arms_result(*old(self), *self, r, arm_pflat(steps), arm_tflat(steps), steps, ArmPhase::Ended(kb)));
        }
        r
    }

    /// `match e with | pat => rhs ...` (see `match_result`; the calls are
    /// ones that `pattern` and `term` can make).
    #[verifier::spinoff_prover]
    #[verifier::rlimit(60)]
    pub fn match_expr<P, F>(&mut self, pattern: P, term: F) -> (r: ParserResult<Syntax>) where
        P: Fn(&mut Parser) -> ParserResult<Syntax> + Copy,
        F: Fn(&mut Parser) -> ParserResult<Syntax> + Copy,
        requires
            old(self).wf(),
            forall|q: &mut Parser| q.wf() ==> pattern.requires((q,)),
            forall|q: &mut Parser, x: ParserResult<Syntax>|
                pattern.ensures((q,), x) ==> {
                    &&& final(q).wf()
                    &&& final(q).text() == q.text()
                    &&& final(q).offset() >= q.offset()
                },
            forall|q: &mut Parser| q.wf() ==> term.requires((q,)),
            forall|q: &mut Parser, x: ParserResult<Syntax>|
                term.ensures((q,), x) ==> {
                    &&& final(q).wf()
                    &&& final(q).text() == q.text()
                    &&& final(q).offset() >= q.offset()
                },
        ensures
            final(self).wf(),
            exists|pcalls: Seq<TermCall>, tcalls: Seq<TermCall>, steps: Seq<ArmStep>, phase: ArmPhase|
                #![trigger match_result(*old(self), *final(self), r, pcalls, tcalls, steps, phase)]
                {
                    &&& match_result(*old(self), *final(self), r, pcalls, tcalls, steps, phase)
                    &&& forall|j: int|
                        #![trigger pcalls[j]]
                        0 <= j < pcalls.len() ==> exists|q: &mut Parser|
                            #![trigger pattern.ensures((q,), pcalls[j].result)]
                            {
                                &&& q.text() == old(self).text()
                                &&& q.offset() == pcalls[j].start
                                &&& final(q).offset() == pcalls[j].end
                                &&& pattern.ensures((q,), pcalls[j].result)
                            }
                    &&& forall|j: int|
                        #![trigger tcalls[j]]
                        0 <= j < tcalls.len() ==> exists|q: &mut Parser|
                            #![trigger term.ensures((q,), tcalls[j].result)]
                            {
                                &&& q.text() == old(self).text()
                                &&& q.offset() == tcalls[j].start
                                &&& final(q).offset() == tcalls[j].end
                                &&& term.ensures((q,), tcalls[j].result)
                            }
                },
    {
        proof {
            self.lemma_wf();
            reveal_strlit("match");
            reveal_strlit("with");
        }
        let ghost t = self.text();
        let ghost i = self.offset() as int;
        let ghost none: Seq<TermCall> = Seq::empty();
        let ghost nosteps: Seq<ArmStep> = Seq::empty();
        let ghost anyphase = ArmPhase::Ended(0);
        let start = self.position();
        match self.keyword("match") {
            Ok(()) => {},
            Err(e) => {
                proof { assert(match_result(*old(self), *self, Err::<Syntax, Box<ParseError>>(e), none, none, nosteps, anyphase)); }
                return Err(e);
            },
        }
        self.skip_whitespace();
        proof {
            lemma_trivia_end(t, i + 5);
            self.lemma_wf();
        }
        let ghost c0 = self.offset() as int;
        let res0 = term(self);
        proof { self.lemma_wf(); }
        let ghost call0 = TermCall { start: c0, end: self.offset() as int, result: res0 };
        let ghost tc0 = seq![call0];
        let x = match res0 {
            Ok(x) => x,
            Err(e) => {
                proof { assert(match_result(*old(self), *self, Err::<Syntax, Box<ParseError>>(e), none, tc0, nosteps, anyphase)); }
                return Err(e);
            },
        };
        let ghost e0 = self.offset() as int;
        self.skip_whitespace();
        proof {
            lemma_trivia_end(t, e0);
            self.lemma_wf();
        }
        let ghost w = self.offset() as int;
        match self.keyword("with") {
            Ok(()) => {},
            Err(e) => {
                proof {
                    assert("keyword '"@ + "with"@ + "'"@ =~= "keyword 'with'"@) by {
                        reveal_strlit("keyword '");
                        reveal_strlit("'");
                        reveal_strlit("keyword 'with'");
                    }
                    assert(match_result(*old(self), *self, Err::<Syntax, Box<ParseError>>(e), none, tc0, nosteps, anyphase));
                }
                return Err(e);
            },
        }
        self.skip_whitespace();
        proof {
            lemma_trivia_end(t, w + 4);
            self.lemma_wf();
        }
        let ghost p1 = *self;
        let res = self.parse_arms(pattern, term);
        let ghost (pc, tc, steps, phase) = choose|pc: Seq<TermCall>, tc: Seq<TermCall>, steps: Seq<ArmStep>, phase: ArmPhase|
            {
                &&& arms_result(p1, *self, res, pc, tc, steps, phase)
                &&& forall|j: int|
                    #![trigger pc[j]]
                    0 <= j < pc.len() ==> exists|q: &mut Parser|
                        #![trigger pattern.ensures((q,), pc[j].result)]
                        {
                            &&& q.text() == t
                            &&& q.offset() == pc[j].start
                            &&& final(q).offset() == pc[j].end
                            &&& pattern.ensures((q,), pc[j].result)
                        }
                &&& forall|j: int|
                    #![trigger tc[j]]
                    0 <= j < tc.len() ==> exists|q: &mut Parser|
                        #![trigger term.ensures((q,), tc[j].result)]
                        {
                            &&& q.text() == t
                            &&& q.offset() == tc[j].start
                            &&& final(q).offset() == tc[j].end
                            &&& term.ensures((q,), tc[j].result)
                        }
            };
        let ghost tcalls = tc0 + tc;
        proof {
            self.lemma_wf();
            assert(tcalls.drop_first() =~= tc);
            assert(tcalls[0] == call0);
            assert forall|jj: int| #![trigger tcalls[jj]] 0 <= jj < tcalls.len() implies exists|q: &mut Parser|
                #![trigger term.ensures((q,), tcalls[jj].result)]
                {
                    &&& q.text() == t
                    &&& q.offset() == tcalls[jj].start
                    &&& final(q).offset() == tcalls[jj].end
                    &&& term.ensures((q,), tcalls[jj].result)
                } by {
                if jj > 0 {
                    assert(tcalls[jj] == tc[jj - 1]);
                }
            }
        }
        let mut arms = match res {
            Ok(v) => v,
            Err(e) => {
                proof { assert(match_result(*old(self), *self, Err::<Syntax, Box<ParseError>>(e), pc, tcalls, steps, phase)); }
                return Err(e);
            },
        };
        let ghost gx = x;
        let ghost va = arms@;
        let mut children: Vec<Syntax> = Vec::new();
        children.push(x);
        children.append(&mut arms);
        let ghost cs = children@;
        let range = self.input().range_from(start);
        let node = self.create_node(SyntaxKind::Match, range, children);
        proof {
            assert(cs =~= seq![gx] + arm_results(steps));
            assert(match_result(*old(self), *self, Ok::<Syntax, Box<ParseError>>(node), pc, tcalls, steps, phase));
        }
        Ok(node)
    }
}

} // verus!
