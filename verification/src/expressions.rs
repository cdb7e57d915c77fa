//! Terms led by a keyword: `if … then … else …`, `show … from …`,
//! `have h : … := …`.
use vstd::prelude::*;
use crate::attributes::{Lex, err_is, ident_lex};
use crate::declarations::{is_name_atom, node_of};
use crate::definitions::{OptPart, opt_part, part_end, part_syntax};
use crate::error::{ParseError, ParserResult, is_expected};
use crate::interpolation::TermCall;
use crate::literals::expect_error;
use crate::parser::{Parser, keyword_at, lemma_ident_at};
use crate::scan::{lemma_trivia_end, trivia_end};
use crate::syntax::{pos_at, range_at, Syntax, SyntaxKind};
use crate::tactics::keyword_missing;

verus! {

/// From `k`: a term read by the first of the calls; then, for each keyword
/// of `kws`, whitespace and comments, the keyword, whitespace and comments,
/// and a term read by the next call. On success a node of `kind` spans from
/// `i` to the end of the last term, with the children `acc` and the terms.
pub open spec fn kw_chain(
    t: Seq<char>,
    i: int,
    k: int,
    kws: Seq<Seq<char>>,
    calls: Seq<TermCall>,
    q: Parser,
    r: ParserResult<Syntax>,
    kind: SyntaxKind,
    acc: Seq<Syntax>,
) -> bool
    decreases kws.len(),
{
    if calls.len() == 0 || calls[0].start != k {
        false
    } else {
        match calls[0].result {
            Err(e) => calls.len() == 1 && q.offset() == calls[0].end && r == Err::<Syntax, Box<ParseError>>(e),
            Ok(x) => {
                let e = calls[0].end;
                if kws.len() == 0 {
                    calls.len() == 1 && q.offset() == e && node_of(r, t, i, e, kind, acc.push(x))
                } else {
                    let w = trivia_end(t, e);
                    if !keyword_at(t, w, kws[0]) {
                        &&& calls.len() == 1
                        &&& q.offset() == w
                        &&& r matches Err(err) && is_expected(*err, "keyword '"@ + kws[0] + "'"@, pos_at(t, w as nat))
                    } else {
                        kw_chain(t, i, trivia_end(t, w + kws[0].len()), kws.drop_first(), calls.drop_first(), q, r, kind, acc.push(x))
                    }
                }
            },
        }
    }
}

/// What a term led by `kw` returns from `p`: the keyword, whitespace and
/// comments, then the terms and keywords `kws` (see `kw_chain`); a node of
/// `kind` whose children are the terms.
pub open spec fn led_result(p: Parser, q: Parser, r: ParserResult<Syntax>, kw: Seq<char>, kws: Seq<Seq<char>>, kind: SyntaxKind, calls: Seq<TermCall>) -> bool {
    let t = p.text();
    let i = p.offset() as int;
    &&& q.text() == t
    &&& if !keyword_at(t, i, kw) {
        calls.len() == 0 && keyword_missing(p, q, r, kw)
    } else {
        kw_chain(t, i, trivia_end(t, i + kw.len()), kws, calls, q, r, kind, Seq::empty())
    }
}


/// What `if_term` returns from `p`: `if`, a condition, `then`, a term,
/// `else`, a term (see `led_result`).
pub open spec fn if_result(p: Parser, q: Parser, r: ParserResult<Syntax>, calls: Seq<TermCall>) -> bool {
    led_result(p, q, r, "if"@, seq!["then"@, "else"@], SyntaxKind::Match, calls)
}

/// What `show_term` returns from `p`: `show`, a type, `from`, a proof (see
/// `led_result`).
pub open spec fn show_result(p: Parser, q: Parser, r: ParserResult<Syntax>, calls: Seq<TermCall>) -> bool {
    led_result(p, q, r, "show"@, seq!["from"@], SyntaxKind::Show, calls)
}

/// `:=` stands at `n`.
pub open spec fn assign_ok(t: Seq<char>, n: int) -> bool {
    0 <= n && n + 1 < t.len() && t[n] == ':' && t[n + 1] == '='
}

/// The error, and where the cursor stops, where `:=` is missing at `n`.
pub open spec fn assign_missing(t: Seq<char>, n: int, q: Parser, r: ParserResult<Syntax>) -> bool {
    if !(0 <= n < t.len() && t[n] == ':') {
        q.offset() == n && (r matches Err(e) && expect_error(*e, t, n, ':'))
    } else {
        q.offset() == n + 1 && (r matches Err(e) && expect_error(*e, t, n + 1, '='))
    }
}

/// What `have_term` returns from `p`: `have`, whitespace and comments, an
/// identifier, whitespace and comments, `:`, whitespace and comments, a
/// type read by the first call, whitespace and comments, `:=`, whitespace
/// and comments and a proof read by the second; a `Have` node whose
/// children are the name, the type and the proof.
pub open spec fn have_result(p: Parser, q: Parser, r: ParserResult<Syntax>, calls: Seq<TermCall>) -> bool {
    let t = p.text();
    let i = p.offset() as int;
    let j = trivia_end(t, i + 4);
    &&& q.text() == t
    &&& if !keyword_at(t, i, "have"@) {
        calls.len() == 0 && keyword_missing(p, q, r, "have"@)
    } else {
        match ident_lex(t, j) {
            Lex::Token(name, e) => {
                let s1 = trivia_end(t, e);
                if !(0 <= s1 < t.len() && t[s1] == ':') {
                    calls.len() == 0 && q.offset() == s1 && (r matches Err(err) && expect_error(*err, t, s1, ':'))
                } else if calls.len() == 0 || calls[0].start != trivia_end(t, s1 + 1) {
                    false
                } else {
                    match calls[0].result {
                        Err(err) => calls.len() == 1 && q.offset() == calls[0].end && r == Err::<Syntax, Box<ParseError>>(err),
                        Ok(ty) => {
                            let n = trivia_end(t, calls[0].end);
                            if !assign_ok(t, n) {
                                calls.len() == 1 && assign_missing(t, n, q, r)
                            } else if calls.len() != 2 || calls[1].start != trivia_end(t, n + 2) {
                                false
                            } else {
                                &&& q.offset() == calls[1].end
                                &&& match calls[1].result {
                                    Err(err) => r == Err::<Syntax, Box<ParseError>>(err),
                                    Ok(pf) => r matches Ok(x) && x matches Syntax::Node(nd) && {
                                        &&& nd.kind == SyntaxKind::Have
                                        &&& nd.range == range_at(t, i as nat, calls[1].end as nat)
                                        &&& nd.children@.len() == 3
                                        &&& is_name_atom(nd.children@[0], t, j, e, name)
                                        &&& nd.children@[1] == ty
                                        &&& nd.children@[2] == pf
                                    },
                                }
                            }
                        },
                    }
                }
            },
            Lex::Fail(s, o) => calls.len() == 0 && q.offset() == o && (r matches Err(err) && err_is(*err, s, t, o)),
            Lex::Paren => false,
        }
    }
}

/// What `let_term` returns from `p`: `let`, whitespace and comments,
/// optionally `mut` and whitespace and comments, an identifier, whitespace
/// and comments, optionally a type (`:` not followed by `=`, whitespace and
/// comments, a term), whitespace and comments, `:=`, whitespace and
/// comments, a value, whitespace and comments, optionally `in` and
/// whitespace and comments, and a body; each term is read by the next of
/// the calls. A `Let` node whose children are the name, the type where one
/// was given, the value and the body.
pub open spec fn let_result(p: Parser, q: Parser, r: ParserResult<Syntax>, calls: Seq<TermCall>) -> bool {
    let t = p.text();
    let i = p.offset() as int;
    let k = trivia_end(t, i + 3);
    let j = if keyword_at(t, k, "mut"@) { trivia_end(t, k + 3) } else { k };
    &&& q.text() == t
    &&& if !keyword_at(t, i, "let"@) {
        calls.len() == 0 && keyword_missing(p, q, r, "let"@)
    } else {
        match ident_lex(t, j) {
            Lex::Token(name, e) => {
                let kb = trivia_end(t, e);
                let has_ty = 0 <= kb < t.len() && t[kb] == ':' && !(kb + 1 < t.len() && t[kb + 1] == '=');
                let o1 = opt_part(has_ty, trivia_end(t, kb + 1), calls);
                match o1 {
                    OptPart::Stuck => false,
                    OptPart::Failed(err, at) => calls.len() == 1 && q.offset() == at && r == Err::<Syntax, Box<ParseError>>(err),
                    _ => {
                        let c1 = if has_ty { calls.drop_first() } else { calls };
                        let n = trivia_end(t, part_end(o1, kb));
                        if !assign_ok(t, n) {
                            c1.len() == 0 && assign_missing(t, n, q, r)
                        } else if c1.len() == 0 || c1[0].start != trivia_end(t, n + 2) {
                            false
                        } else {
                            match c1[0].result {
                                Err(err) => c1.len() == 1 && q.offset() == c1[0].end && r == Err::<Syntax, Box<ParseError>>(err),
                                Ok(v) => {
                                    let w = trivia_end(t, c1[0].end);
                                    let b = if keyword_at(t, w, "in"@) { trivia_end(t, w + 2) } else { w };
                                    if c1.len() != 2 || c1[1].start != b {
                                        false
                                    } else {
                                        &&& q.offset() == c1[1].end
                                        &&& match c1[1].result {
                                            Err(err) => r == Err::<Syntax, Box<ParseError>>(err),
                                            Ok(body) => r matches Ok(x) && x matches Syntax::Node(nd) && {
                                                &&& nd.kind == SyntaxKind::Let
                                                &&& nd.range == range_at(t, i as nat, c1[1].end as nat)
                                                &&& nd.children@.len() >= 1
                                                &&& is_name_atom(nd.children@[0], t, j, e, name)
                                                &&& nd.children@.drop_first() == part_syntax(o1) + seq![v, body]
                                            },
                                        }
                                    }
                                },
                            }
                        }
                    },
                }
            },
            Lex::Fail(s, o) => calls.len() == 0 && q.offset() == o && (r matches Err(err) && err_is(*err, s, t, o)),
            Lex::Paren => false,
        }
    }
}

/// What `do_return_stmt` returns from `p`: `return`, whitespace and
/// comments, a term (see `led_result`); a `Return` node of the term.
pub open spec fn return_result(p: Parser, q: Parser, r: ParserResult<Syntax>, calls: Seq<TermCall>) -> bool {
    led_result(p, q, r, "return"@, Seq::empty(), SyntaxKind::Return, calls)
}

/// What `do_pure_stmt` returns from `p`: `pure`, whitespace and comments, a
/// term (see `led_result`); a `Return` node of the term.
pub open spec fn pure_result(p: Parser, q: Parser, r: ParserResult<Syntax>, calls: Seq<TermCall>) -> bool {
    led_result(p, q, r, "pure"@, Seq::empty(), SyntaxKind::Return, calls)
}

/// A bind arrow `←` or `<-` at `n`: where the value starts after it, else
/// -1.
pub open spec fn bind_arrow_end(t: Seq<char>, n: int) -> int {
    if 0 <= n < t.len() && t[n] == '←' {
        n + 1
    } else if 0 <= n && n + 1 < t.len() && t[n] == '<' && t[n + 1] == '-' {
        n + 2
    } else {
        -1
    }
}

/// What `do_let_stmt` returns from `p`: as `let_result` up to the optional
/// type, then whitespace and comments, `←`, `<-` or `:=`, whitespace and
/// comments and a value read by the last call; a `Bind` node (after an
/// arrow) or a `Let` node whose children are the name, the type where one
/// was given, and the value.
pub open spec fn do_let_result(p: Parser, q: Parser, r: ParserResult<Syntax>, calls: Seq<TermCall>) -> bool {
    let t = p.text();
    let i = p.offset() as int;
    let k = trivia_end(t, i + 3);
    let j = if keyword_at(t, k, "mut"@) { trivia_end(t, k + 3) } else { k };
    &&& q.text() == t
    &&& if !keyword_at(t, i, "let"@) {
        calls.len() == 0 && keyword_missing(p, q, r, "let"@)
    } else {
        match ident_lex(t, j) {
            Lex::Token(name, e) => {
                let kb = trivia_end(t, e);
                let has_ty = 0 <= kb < t.len() && t[kb] == ':' && !(kb + 1 < t.len() && t[kb + 1] == '=');
                let o1 = opt_part(has_ty, trivia_end(t, kb + 1), calls);
                match o1 {
                    OptPart::Stuck => false,
                    OptPart::Failed(err, at) => calls.len() == 1 && q.offset() == at && r == Err::<Syntax, Box<ParseError>>(err),
                    _ => {
                        let c1 = if has_ty { calls.drop_first() } else { calls };
                        let n = trivia_end(t, part_end(o1, kb));
                        let arrow = bind_arrow_end(t, n);
                        let after = if arrow >= 0 { arrow } else { n + 2 };
                        if arrow < 0 && !assign_ok(t, n) {
                            c1.len() == 0 && assign_missing(t, n, q, r)
                        } else if c1.len() != 1 || c1[0].start != trivia_end(t, after) {
                            false
                        } else {
                            &&& q.offset() == c1[0].end
                            &&& match c1[0].result {
                                Err(err) => r == Err::<Syntax, Box<ParseError>>(err),
                                Ok(v) => r matches Ok(x) && x matches Syntax::Node(nd) && {
                                    &&& nd.kind == if arrow >= 0 { SyntaxKind::Bind } else { SyntaxKind::Let }
                                    &&& nd.range == range_at(t, i as nat, c1[0].end as nat)
                                    &&& nd.children@.len() >= 1
                                    &&& is_name_atom(nd.children@[0], t, j, e, name)
                                    &&& nd.children@.drop_first() == part_syntax(o1).push(v)
                                },
                            }
                        }
                    },
                }
            },
            Lex::Fail(s, o) => calls.len() == 0 && q.offset() == o && (r matches Err(err) && err_is(*err, s, t, o)),
            Lex::Paren => false,
        }
    }
}

/// A plain expression statement from `i`: the term that the only call read.
pub open spec fn plain_stmt(i: int, calls: Seq<TermCall>, q: Parser, r: ParserResult<Syntax>) -> bool {
    &&& calls.len() == 1
    &&& calls[0].start == i
    &&& q.offset() == calls[0].end
    &&& r == calls[0].result
}

/// What `do_expr_stmt` returns from `p`: where an identifier, whitespace
/// and comments, and `←` or `<-` stand, whitespace and comments and a term
/// read by the first call make a `Bind` node of the name and the term; where
/// any of that fails, the cursor returns and the statement is the term that
/// the next call reads (see `plain_stmt`).
pub open spec fn do_expr_result(p: Parser, q: Parser, r: ParserResult<Syntax>, calls: Seq<TermCall>) -> bool {
    let t = p.text();
    let i = p.offset() as int;
    &&& q.text() == t
    &&& match ident_lex(t, trivia_end(t, i)) {
        Lex::Token(name, e) => {
            let arrow = bind_arrow_end(t, trivia_end(t, e));
            if arrow < 0 {
                plain_stmt(i, calls, q, r)
            } else if calls.len() == 0 || calls[0].start != trivia_end(t, arrow) {
                false
            } else {
                match calls[0].result {
                    Ok(v) => {
                        &&& calls.len() == 1
                        &&& q.offset() == calls[0].end
                        &&& r matches Ok(x) && x matches Syntax::Node(nd) && {
                            &&& nd.kind == SyntaxKind::Bind
                            &&& nd.range == range_at(t, i as nat, calls[0].end as nat)
                            &&& nd.children@.len() == 2
                            &&& is_name_atom(nd.children@[0], t, i, e, name)
                            &&& nd.children@[1] == v
                        }
                    },
                    Err(_) => plain_stmt(i, calls.drop_first(), q, r),
                }
            }
        },
        _ => plain_stmt(i, calls, q, r),
    }
}

impl Parser {
    /// `if cond then a else b`: a `Match` node whose children are the three
    /// terms (see `led_result`; the calls are ones that `term` can make).
    #[verifier::spinoff_prover]
    pub fn if_term<F>(&mut self, term: F) -> (r: ParserResult<Syntax>) where
        F: Fn(&mut Parser) -> ParserResult<Syntax>,
        requires
            old(self).wf(),
            forall|q: &mut Parser| q.wf() ==> term.requires((q,)),
            forall|q: &mut Parser, x: ParserResult<Syntax>|
                term.ensures((q,), x) ==> {
                    &&& final(q).wf()
                    &&& final(q).text() == q.text()
                    &&& final(q).offset() >= q.offset()
                },
        ensures
            final(self).wf(),
            exists|calls: Seq<TermCall>|
                #![trigger if_result(*old(self), *final(self), r, calls)]
                {
                    &&& if_result(*old(self), *final(self), r, calls)
                    &&& forall|j: int|
                        #![trigger calls[j]]
                        0 <= j < calls.len() ==> exists|q: &mut Parser|
                            #![trigger term.ensures((q,), calls[j].result)]
                            {
                                &&& q.text() == old(self).text()
                                &&& q.offset() == calls[j].start
                                &&& final(q).offset() == calls[j].end
                                &&& term.ensures((q,), calls[j].result)
                            }
                },
    {
        proof {
            self.lemma_wf();
            reveal_strlit("if");
            reveal_strlit("then");
            reveal_strlit("else");
            reveal_with_fuel(kw_chain, 3);
        }
        let ghost t = self.text();
        let ghost i = self.offset() as int;
        let ghost none: Seq<TermCall> = Seq::empty();
        let start = self.position();
        match self.keyword("if") {
            Ok(()) => {},
            Err(e) => {
                proof { assert(if_result(*old(self), *self, Err::<Syntax, Box<ParseError>>(e), none)); }
                return Err(e);
            },
        }
        self.skip_whitespace();
        proof {
            lemma_trivia_end(t, i + 2);
            self.lemma_wf();
        }
        let ghost c0 = self.offset() as int;
        let res0 = term(self);
        proof { self.lemma_wf(); }
        let ghost calls0 = none.push(TermCall { start: c0, end: self.offset() as int, result: res0 });
        let x0 = match res0 {
            Ok(x) => x,
            Err(e) => {
                proof { assert(if_result(*old(self), *self, Err::<Syntax, Box<ParseError>>(e), calls0)); }
                return Err(e);
            },
        };
        let ghost e0 = self.offset() as int;
        self.skip_whitespace();
        proof {
            lemma_trivia_end(t, e0);
            self.lemma_wf();
        }
        let ghost w1 = self.offset() as int;
        match self.keyword("then") {
            Ok(()) => {},
            Err(e) => {
                proof { assert(if_result(*old(self), *self, Err::<Syntax, Box<ParseError>>(e), calls0)); }
                return Err(e);
            },
        }
        self.skip_whitespace();
        proof {
            lemma_trivia_end(t, w1 + 4);
            self.lemma_wf();
        }
        let ghost c1 = self.offset() as int;
        let res1 = term(self);
        proof { self.lemma_wf(); }
        let ghost calls1 = calls0.push(TermCall { start: c1, end: self.offset() as int, result: res1 });
        let x1 = match res1 {
            Ok(x) => x,
            Err(e) => {
                proof { assert(if_result(*old(self), *self, Err::<Syntax, Box<ParseError>>(e), calls1)); }
                return Err(e);
            },
        };
        let ghost e1 = self.offset() as int;
        self.skip_whitespace();
        proof {
            lemma_trivia_end(t, e1);
            self.lemma_wf();
        }
        let ghost w2 = self.offset() as int;
        match self.keyword("else") {
            Ok(()) => {},
            Err(e) => {
                proof { assert(if_result(*old(self), *self, Err::<Syntax, Box<ParseError>>(e), calls1)); }
                return Err(e);
            },
        }
        self.skip_whitespace();
        proof {
            lemma_trivia_end(t, w2 + 4);
            self.lemma_wf();
        }
        let ghost c2 = self.offset() as int;
        let res2 = term(self);
        proof { self.lemma_wf(); }
        let ghost calls2 = calls1.push(TermCall { start: c2, end: self.offset() as int, result: res2 });
        let x2 = match res2 {
            Ok(x) => x,
            Err(e) => {
                proof { assert(if_result(*old(self), *self, Err::<Syntax, Box<ParseError>>(e), calls2)); }
                return Err(e);
            },
        };
        let ghost gx0 = x0;
        let ghost gx1 = x1;
        let ghost gx2 = x2;
        let mut children: Vec<Syntax> = Vec::new();
        children.push(x0);
        children.push(x1);
        children.push(x2);
        let ghost cs = children@;
        let range = self.input().range_from(start);
        let node = self.create_node(SyntaxKind::Match, range, children);
        proof {
            assert(cs =~= seq![gx0, gx1, gx2]);
            assert(if_result(*old(self), *self, Ok::<Syntax, Box<ParseError>>(node), calls2));
        }
        Ok(node)
    }

    /// `show type from proof`: a `Show` node whose children are the two terms
    /// (see `led_result`; the calls are ones that `term` can make).
    #[verifier::spinoff_prover]
    pub fn show_term<F>(&mut self, term: F) -> (r: ParserResult<Syntax>) where
        F: Fn(&mut Parser) -> ParserResult<Syntax>,
        requires
            old(self).wf(),
            forall|q: &mut Parser| q.wf() ==> term.requires((q,)),
            forall|q: &mut Parser, x: ParserResult<Syntax>|
                term.ensures((q,), x) ==> {
                    &&& final(q).wf()
                    &&& final(q).text() == q.text()
                    &&& final(q).offset() >= q.offset()
                },
        ensures
            final(self).wf(),
            exists|calls: Seq<TermCall>|
                #![trigger show_result(*old(self), *final(self), r, calls)]
                {
                    &&& show_result(*old(self), *final(self), r, calls)
                    &&& forall|j: int|
                        #![trigger calls[j]]
                        0 <= j < calls.len() ==> exists|q: &mut Parser|
                            #![trigger term.ensures((q,), calls[j].result)]
                            {
                                &&& q.text() == old(self).text()
                                &&& q.offset() == calls[j].start
                                &&& final(q).offset() == calls[j].end
                                &&& term.ensures((q,), calls[j].result)
                            }
                },
    {
        proof {
            self.lemma_wf();
            reveal_strlit("show");
            reveal_strlit("from");
            reveal_with_fuel(kw_chain, 2);
        }
        let ghost t = self.text();
        let ghost i = self.offset() as int;
        let ghost none: Seq<TermCall> = Seq::empty();
        let start = self.position();
        match self.keyword("show") {
            Ok(()) => {},
            Err(e) => {
                proof { assert(show_result(*old(self), *self, Err::<Syntax, Box<ParseError>>(e), none)); }
                return Err(e);
            },
        }
        self.skip_whitespace();
        proof {
            lemma_trivia_end(t, i + 4);
            self.lemma_wf();
        }
        let ghost c0 = self.offset() as int;
        let res0 = term(self);
        proof { self.lemma_wf(); }
        let ghost calls0 = none.push(TermCall { start: c0, end: self.offset() as int, result: res0 });
        let x0 = match res0 {
            Ok(x) => x,
            Err(e) => {
                proof { assert(show_result(*old(self), *self, Err::<Syntax, Box<ParseError>>(e), calls0)); }
                return Err(e);
            },
        };
        let ghost e0 = self.offset() as int;
        self.skip_whitespace();
        proof {
            lemma_trivia_end(t, e0);
            self.lemma_wf();
        }
        let ghost w1 = self.offset() as int;
        match self.keyword("from") {
            Ok(()) => {},
            Err(e) => {
                proof { assert(show_result(*old(self), *self, Err::<Syntax, Box<ParseError>>(e), calls0)); }
                return Err(e);
            },
        }
        self.skip_whitespace();
        proof {
            lemma_trivia_end(t, w1 + 4);
            self.lemma_wf();
        }
        let ghost c1 = self.offset() as int;
        let res1 = term(self);
        proof { self.lemma_wf(); }
        let ghost calls1 = calls0.push(TermCall { start: c1, end: self.offset() as int, result: res1 });
        let x1 = match res1 {
            Ok(x) => x,
            Err(e) => {
                proof { assert(show_result(*old(self), *self, Err::<Syntax, Box<ParseError>>(e), calls1)); }
                return Err(e);
            },
        };
        let ghost gx0 = x0;
        let ghost gx1 = x1;
        let mut children: Vec<Syntax> = Vec::new();
        children.push(x0);
        children.push(x1);
        let ghost cs = children@;
        let range = self.input().range_from(start);
        let node = self.create_node(SyntaxKind::Show, range, children);
        proof {
            assert(cs =~= seq![gx0, gx1]);
            assert(show_result(*old(self), *self, Ok::<Syntax, Box<ParseError>>(node), calls1));
        }
        Ok(node)
    }

    /// `return value` in a `do` block: a `Return` node of the value (see
    /// `return_result`; the call is one that `term` can make).
    #[verifier::spinoff_prover]
    pub fn do_return_stmt<F>(&mut self, term: F) -> (r: ParserResult<Syntax>) where
        F: Fn(&mut Parser) -> ParserResult<Syntax>,
        requires
            old(self).wf(),
            forall|q: &mut Parser| q.wf() ==> term.requires((q,)),
            forall|q: &mut Parser, x: ParserResult<Syntax>|
                term.ensures((q,), x) ==> {
                    &&& final(q).wf()
                    &&& final(q).text() == q.text()
                    &&& final(q).offset() >= q.offset()
                },
        ensures
            final(self).wf(),
            r is Ok ==> final(self).offset() > old(self).offset(),
            exists|calls: Seq<TermCall>|
                #![trigger return_result(*old(self), *final(self), r, calls)]
                {
                    &&& return_result(*old(self), *final(self), r, calls)
                    &&& forall|j: int|
                        #![trigger calls[j]]
                        0 <= j < calls.len() ==> exists|q: &mut Parser|
                            #![trigger term.ensures((q,), calls[j].result)]
                            {
                                &&& q.text() == old(self).text()
                                &&& q.offset() == calls[j].start
                                &&& final(q).offset() == calls[j].end
                                &&& term.ensures((q,), calls[j].result)
                            }
                },
    {
        proof {
            self.lemma_wf();
            reveal_strlit("return");
        }
        let ghost t = self.text();
        let ghost i = self.offset() as int;
        let ghost none: Seq<TermCall> = Seq::empty();
        let start = self.position();
        match self.keyword("return") {
            Ok(()) => {},
            Err(e) => {
                proof { assert(return_result(*old(self), *self, Err::<Syntax, Box<ParseError>>(e), none)); }
                return Err(e);
            },
        }
        self.skip_whitespace();
        proof {
            lemma_trivia_end(t, i + 6);
            self.lemma_wf();
        }
        let ghost c0 = self.offset() as int;
        let res0 = term(self);
        proof { self.lemma_wf(); }
        let ghost calls0 = none.push(TermCall { start: c0, end: self.offset() as int, result: res0 });
        let x0 = match res0 {
            Ok(x) => x,
            Err(e) => {
                proof { assert(return_result(*old(self), *self, Err::<Syntax, Box<ParseError>>(e), calls0)); }
                return Err(e);
            },
        };
        let ghost gx0 = x0;
        let mut children: Vec<Syntax> = Vec::new();
        children.push(x0);
        let ghost cs = children@;
        let range = self.input().range_from(start);
        let node = self.create_node(SyntaxKind::Return, range, children);
        proof {
            assert(cs =~= seq![gx0]);
            assert(return_result(*old(self), *self, Ok::<Syntax, Box<ParseError>>(node), calls0));
        }
        Ok(node)
    }

    /// `pure value` in a `do` block: a `Return` node of the value (see
    /// `pure_result`; the call is one that `term` can make).
    #[verifier::spinoff_prover]
    pub fn do_pure_stmt<F>(&mut self, term: F) -> (r: ParserResult<Syntax>) where
        F: Fn(&mut Parser) -> ParserResult<Syntax>,
        requires
            old(self).wf(),
            forall|q: &mut Parser| q.wf() ==> term.requires((q,)),
            forall|q: &mut Parser, x: ParserResult<Syntax>|
                term.ensures((q,), x) ==> {
                    &&& final(q).wf()
                    &&& final(q).text() == q.text()
                    &&& final(q).offset() >= q.offset()
                },
        ensures
            final(self).wf(),
            r is Ok ==> final(self).offset() > old(self).offset(),
            exists|calls: Seq<TermCall>|
                #![trigger pure_result(*old(self), *final(self), r, calls)]
                {
                    &&& pure_result(*old(self), *final(self), r, calls)
                    &&& forall|j: int|
                        #![trigger calls[j]]
                        0 <= j < calls.len() ==> exists|q: &mut Parser|
                            #![trigger term.ensures((q,), calls[j].result)]
                            {
                                &&& q.text() == old(self).text()
                                &&& q.offset() == calls[j].start
                                &&& final(q).offset() == calls[j].end
                                &&& term.ensures((q,), calls[j].result)
                            }
                },
    {
        proof {
            self.lemma_wf();
            reveal_strlit("pure");
        }
        let ghost t = self.text();
        let ghost i = self.offset() as int;
        let ghost none: Seq<TermCall> = Seq::empty();
        let start = self.position();
        match self.keyword("pure") {
            Ok(()) => {},
            Err(e) => {
                proof { assert(pure_result(*old(self), *self, Err::<Syntax, Box<ParseError>>(e), none)); }
                return Err(e);
            },
        }
        self.skip_whitespace();
        proof {
            lemma_trivia_end(t, i + 4);
            self.lemma_wf();
        }
        let ghost c0 = self.offset() as int;
        let res0 = term(self);
        proof { self.lemma_wf(); }
        let ghost calls0 = none.push(TermCall { start: c0, end: self.offset() as int, result: res0 });
        let x0 = match res0 {
            Ok(x) => x,
            Err(e) => {
                proof { assert(pure_result(*old(self), *self, Err::<Syntax, Box<ParseError>>(e), calls0)); }
                return Err(e);
            },
        };
        let ghost gx0 = x0;
        let mut children: Vec<Syntax> = Vec::new();
        children.push(x0);
        let ghost cs = children@;
        let range = self.input().range_from(start);
        let node = self.create_node(SyntaxKind::Return, range, children);
        proof {
            assert(cs =~= seq![gx0]);
            assert(pure_result(*old(self), *self, Ok::<Syntax, Box<ParseError>>(node), calls0));
        }
        Ok(node)
    }

    /// `have h : type := proof` (see `have_result`; the calls are ones that
    /// `term` can make).
    #[verifier::spinoff_prover]
    pub fn have_term<F>(&mut self, term: F) -> (r: ParserResult<Syntax>) where
        F: Fn(&mut Parser) -> ParserResult<Syntax>,
        requires
            old(self).wf(),
            forall|q: &mut Parser| q.wf() ==> term.requires((q,)),
            forall|q: &mut Parser, x: ParserResult<Syntax>|
                term.ensures((q,), x) ==> {
                    &&& final(q).wf()
                    &&& final(q).text() == q.text()
                    &&& final(q).offset() >= q.offset()
                },
        ensures
            final(self).wf(),
            exists|calls: Seq<TermCall>|
                #![trigger have_result(*old(self), *final(self), r, calls)]
                {
                    &&& have_result(*old(self), *final(self), r, calls)
                    &&& forall|j: int|
                        #![trigger calls[j]]
                        0 <= j < calls.len() ==> exists|q: &mut Parser|
                            #![trigger term.ensures((q,), calls[j].result)]
                            {
                                &&& q.text() == old(self).text()
                                &&& q.offset() == calls[j].start
                                &&& final(q).offset() == calls[j].end
                                &&& term.ensures((q,), calls[j].result)
                            }
                },
    {
        proof {
            self.lemma_wf();
            reveal_strlit("have");
        }
        let ghost t = self.text();
        let ghost i = self.offset() as int;
        let ghost none: Seq<TermCall> = Seq::empty();
        let start = self.position();
        match self.keyword("have") {
            Ok(()) => {},
            Err(e) => {
                proof { assert(have_result(*old(self), *self, Err::<Syntax, Box<ParseError>>(e), none)); }
                return Err(e);
            },
        }
        self.skip_whitespace();
        proof {
            lemma_trivia_end(t, i + 4);
            self.lemma_wf();
        }
        let ghost j = self.offset() as int;
        let name = match self.identifier() {
            Ok(n) => n,
            Err(e) => {
                proof { assert(have_result(*old(self), *self, Err::<Syntax, Box<ParseError>>(e), none)); }
                return Err(e);
            },
        };
        proof {
            lemma_ident_at(t, j);
            self.lemma_wf();
        }
        let ghost e = self.offset() as int;
        self.skip_whitespace();
        proof {
            lemma_trivia_end(t, e);
            self.lemma_wf();
        }
        let ghost s1 = self.offset() as int;
        match self.expect_char(':') {
            Ok(()) => {},
            Err(err) => {
                proof { assert(have_result(*old(self), *self, Err::<Syntax, Box<ParseError>>(err), none)); }
                return Err(err);
            },
        }
        self.skip_whitespace();
        proof {
            lemma_trivia_end(t, s1 + 1);
            self.lemma_wf();
        }
        let ghost c0 = self.offset() as int;
        let res0 = term(self);
        proof { self.lemma_wf(); }
        let ghost calls0 = seq![TermCall { start: c0, end: self.offset() as int, result: res0 }];
        let ty = match res0 {
            Ok(x) => x,
            Err(err) => {
                proof { assert(have_result(*old(self), *self, Err::<Syntax, Box<ParseError>>(err), calls0)); }
                return Err(err);
            },
        };
        let ghost e0 = self.offset() as int;
        self.skip_whitespace();
        proof {
            lemma_trivia_end(t, e0);
            self.lemma_wf();
        }
        let ghost n = self.offset() as int;
        match self.expect_char(':') {
            Ok(()) => {},
            Err(err) => {
                proof { assert(have_result(*old(self), *self, Err::<Syntax, Box<ParseError>>(err), calls0)); }
                return Err(err);
            },
        }
        match self.expect_char('=') {
            Ok(()) => {},
            Err(err) => {
                proof { assert(have_result(*old(self), *self, Err::<Syntax, Box<ParseError>>(err), calls0)); }
                return Err(err);
            },
        }
        self.skip_whitespace();
        proof {
            lemma_trivia_end(t, n + 2);
            self.lemma_wf();
        }
        let ghost c1 = self.offset() as int;
        let res1 = term(self);
        proof { self.lemma_wf(); }
        let ghost calls1 = calls0.push(TermCall { start: c1, end: self.offset() as int, result: res1 });
        let pf = match res1 {
            Ok(x) => x,
            Err(err) => {
                proof { assert(have_result(*old(self), *self, Err::<Syntax, Box<ParseError>>(err), calls1)); }
                return Err(err);
            },
        };
        let mut children: Vec<Syntax> = Vec::new();
        children.push(name);
        children.push(ty);
        children.push(pf);
        let range = self.input().range_from(start);
        let node = self.create_node(SyntaxKind::Have, range, children);
        proof { assert(have_result(*old(self), *self, Ok::<Syntax, Box<ParseError>>(node), calls1)); }
        Ok(node)
    }

    /// `let [mut] x [: type] := value [in] body` (see `let_result`; the calls
    /// are ones that `term` can make).
    #[verifier::spinoff_prover]
    #[verifier::rlimit(40)]
    pub fn let_term<F>(&mut self, term: F) -> (r: ParserResult<Syntax>) where
        F: Fn(&mut Parser) -> ParserResult<Syntax>,
        requires
            old(self).wf(),
            forall|q: &mut Parser| q.wf() ==> term.requires((q,)),
            forall|q: &mut Parser, x: ParserResult<Syntax>|
                term.ensures((q,), x) ==> {
                    &&& final(q).wf()
                    &&& final(q).text() == q.text()
                    &&& final(q).offset() >= q.offset()
                },
        ensures
            final(self).wf(),
            exists|calls: Seq<TermCall>|
                #![trigger let_result(*old(self), *final(self), r, calls)]
                {
                    &&& let_result(*old(self), *final(self), r, calls)
                    &&& forall|j: int|
                        #![trigger calls[j]]
                        0 <= j < calls.len() ==> exists|q: &mut Parser|
                            #![trigger term.ensures((q,), calls[j].result)]
                            {
                                &&& q.text() == old(self).text()
                                &&& q.offset() == calls[j].start
                                &&& final(q).offset() == calls[j].end
                                &&& term.ensures((q,), calls[j].result)
                            }
                },
    {
        proof {
            self.lemma_wf();
            reveal_strlit("let");
            reveal_strlit("mut");
            reveal_strlit("in");
        }
        let ghost t = self.text();
        let ghost i = self.offset() as int;
        let ghost none: Seq<TermCall> = Seq::empty();
        let start = self.position();
        match self.keyword("let") {
            Ok(()) => {},
            Err(e) => {
                proof { assert(let_result(*old(self), *self, Err::<Syntax, Box<ParseError>>(e), none)); }
                return Err(e);
            },
        }
        self.skip_whitespace();
        proof {
            lemma_trivia_end(t, i + 3);
            self.lemma_wf();
        }
        let ghost k = self.offset() as int;
        if self.peek_keyword("mut") {
            let _ = self.keyword("mut");
            self.skip_whitespace();
            proof {
                lemma_trivia_end(t, k + 3);
                self.lemma_wf();
            }
        }
        let ghost j = self.offset() as int;
        let name = match self.identifier() {
            Ok(n) => n,
            Err(e) => {
                proof { assert(let_result(*old(self), *self, Err::<Syntax, Box<ParseError>>(e), none)); }
                return Err(e);
            },
        };
        proof {
            lemma_ident_at(t, j);
            self.lemma_wf();
        }
        let ghost e = self.offset() as int;
        let ghost gname = name;
        let mut children: Vec<Syntax> = Vec::new();
        children.push(name);
        self.skip_whitespace();
        proof {
            lemma_trivia_end(t, e);
            self.lemma_wf();
        }
        let ghost kb = self.offset() as int;
        let has_ty = self.peek() == Some(':') && self.peek_nth(1) != Some('=');
        let ghost mut calls0: Seq<TermCall> = Seq::empty();
        let ghost mut ty: Seq<Syntax> = Seq::empty();
        if has_ty {
            self.advance();
            self.skip_whitespace();
            proof {
                lemma_trivia_end(t, kb + 1);
                self.lemma_wf();
            }
            let ghost c = self.offset() as int;
            let res = term(self);
            proof { self.lemma_wf(); }
            proof { calls0 = seq![TermCall { start: c, end: self.offset() as int, result: res }]; }
            match res {
                Ok(x) => {
                    proof { ty = seq![x]; }
                    children.push(x);
                },
                Err(err) => {
                    proof { assert(let_result(*old(self), *self, Err::<Syntax, Box<ParseError>>(err), calls0)); }
                    return Err(err);
                },
            }
        }
        let ghost a1 = self.offset() as int;
        self.skip_whitespace();
        proof {
            lemma_trivia_end(t, a1);
            self.lemma_wf();
        }
        let ghost n = self.offset() as int;
        match self.expect_char(':') {
            Ok(()) => {},
            Err(err) => {
                proof { assert(let_result(*old(self), *self, Err::<Syntax, Box<ParseError>>(err), calls0)); }
                return Err(err);
            },
        }
        match self.expect_char('=') {
            Ok(()) => {},
            Err(err) => {
                proof { assert(let_result(*old(self), *self, Err::<Syntax, Box<ParseError>>(err), calls0)); }
                return Err(err);
            },
        }
        self.skip_whitespace();
        proof {
            lemma_trivia_end(t, n + 2);
            self.lemma_wf();
        }
        let ghost cv = self.offset() as int;
        let resv = term(self);
        proof { self.lemma_wf(); }
        let ghost calls1 = calls0.push(TermCall { start: cv, end: self.offset() as int, result: resv });
        let value = match resv {
            Ok(x) => x,
            Err(err) => {
                proof {
                    assert((if has_ty { calls1.drop_first() } else { calls1 }) =~= seq![calls1.last()]);
                    assert(let_result(*old(self), *self, Err::<Syntax, Box<ParseError>>(err), calls1));
                }
                return Err(err);
            },
        };
        let ghost ev = self.offset() as int;
        self.skip_whitespace();
        proof {
            lemma_trivia_end(t, ev);
            self.lemma_wf();
        }
        let ghost w = self.offset() as int;
        if self.peek_keyword("in") {
            let _ = self.keyword("in");
            self.skip_whitespace();
            proof {
                lemma_trivia_end(t, w + 2);
                self.lemma_wf();
            }
        }
        let ghost cb = self.offset() as int;
        let resb = term(self);
        proof { self.lemma_wf(); }
        let ghost calls2 = calls1.push(TermCall { start: cb, end: self.offset() as int, result: resb });
        proof {
            assert((if has_ty { calls2.drop_first() } else { calls2 }) =~= seq![calls1.last(), calls2.last()]);
        }
        let body = match resb {
            Ok(x) => x,
            Err(err) => {
                proof { assert(let_result(*old(self), *self, Err::<Syntax, Box<ParseError>>(err), calls2)); }
                return Err(err);
            },
        };
        let ghost gv = value;
        let ghost gb = body;
        children.push(value);
        children.push(body);
        let ghost cs = children@;
        let range = self.input().range_from(start);
        let node = self.create_node(SyntaxKind::Let, range, children);
        proof {
            assert(cs.drop_first() =~= ty + seq![gv, gb]);
            assert(let_result(*old(self), *self, Ok::<Syntax, Box<ParseError>>(node), calls2));
        }
        Ok(node)
    }
    /// `let [mut] x [: type] := value` or `let x ← value` in a `do` block (see
    /// `do_do_let_result`; the calls are ones that `term` can make).
    #[verifier::spinoff_prover]
    #[verifier::rlimit(100)]
    pub fn do_let_stmt<F>(&mut self, term: F) -> (r: ParserResult<Syntax>) where
        F: Fn(&mut Parser) -> ParserResult<Syntax>,
        requires
            old(self).wf(),
            forall|q: &mut Parser| q.wf() ==> term.requires((q,)),
            forall|q: &mut Parser, x: ParserResult<Syntax>|
                term.ensures((q,), x) ==> {
                    &&& final(q).wf()
                    &&& final(q).text() == q.text()
                    &&& final(q).offset() >= q.offset()
                },
        ensures
            final(self).wf(),
            r is Ok ==> final(self).offset() > old(self).offset(),
            exists|calls: Seq<TermCall>|
                #![trigger do_let_result(*old(self), *final(self), r, calls)]
                {
                    &&& do_let_result(*old(self), *final(self), r, calls)
                    &&& forall|j: int|
                        #![trigger calls[j]]
                        0 <= j < calls.len() ==> exists|q: &mut Parser|
                            #![trigger term.ensures((q,), calls[j].result)]
                            {
                                &&& q.text() == old(self).text()
                                &&& q.offset() == calls[j].start
                                &&& final(q).offset() == calls[j].end
                                &&& term.ensures((q,), calls[j].result)
                            }
                },
    {
        proof {
            self.lemma_wf();
            reveal_strlit("let");
            reveal_strlit("mut");
        }
        let ghost t = self.text();
        let ghost i = self.offset() as int;
        let ghost none: Seq<TermCall> = Seq::empty();
        let start = self.position();
        match self.keyword("let") {
            Ok(()) => {},
            Err(e) => {
                proof { assert(do_let_result(*old(self), *self, Err::<Syntax, Box<ParseError>>(e), none)); }
                return Err(e);
            },
        }
        self.skip_whitespace();
        proof {
            lemma_trivia_end(t, i + 3);
            self.lemma_wf();
        }
        let ghost k = self.offset() as int;
        if self.peek_keyword("mut") {
            let _ = self.keyword("mut");
            self.skip_whitespace();
            proof {
                lemma_trivia_end(t, k + 3);
                self.lemma_wf();
            }
        }
        let ghost j = self.offset() as int;
        let name = match self.identifier() {
            Ok(n) => n,
            Err(e) => {
                proof { assert(do_let_result(*old(self), *self, Err::<Syntax, Box<ParseError>>(e), none)); }
                return Err(e);
            },
        };
        proof {
            lemma_ident_at(t, j);
            self.lemma_wf();
        }
        let ghost e = self.offset() as int;
        let ghost gname = name;
        let mut children: Vec<Syntax> = Vec::new();
        children.push(name);
        self.skip_whitespace();
        proof {
            lemma_trivia_end(t, e);
            self.lemma_wf();
        }
        let ghost kb = self.offset() as int;
        let has_ty = self.peek() == Some(':') && self.peek_nth(1) != Some('=');
        let ghost mut calls0: Seq<TermCall> = Seq::empty();
        let ghost mut ty: Seq<Syntax> = Seq::empty();
        if has_ty {
            self.advance();
            self.skip_whitespace();
            proof {
                lemma_trivia_end(t, kb + 1);
                self.lemma_wf();
            }
            let ghost c = self.offset() as int;
            let res = term(self);
            proof { self.lemma_wf(); }
            proof { calls0 = seq![TermCall { start: c, end: self.offset() as int, result: res }]; }
            match res {
                Ok(x) => {
                    proof { ty = seq![x]; }
                    children.push(x);
                },
                Err(err) => {
                    proof { assert(do_let_result(*old(self), *self, Err::<Syntax, Box<ParseError>>(err), calls0)); }
                    return Err(err);
                },
            }
        }
        let ghost a1 = self.offset() as int;
        self.skip_whitespace();
        proof {
            lemma_trivia_end(t, a1);
            self.lemma_wf();
        }
        let ghost n = self.offset() as int;
        let is_bind = if self.peek() == Some('←') {
            self.advance();
            true
        } else if self.peek() == Some('<') && self.peek_nth(1) == Some('-') {
            self.advance();
            self.advance();
            true
        } else {
            match self.expect_char(':') {
                Ok(()) => {},
                Err(err) => {
                    proof { assert(do_let_result(*old(self), *self, Err::<Syntax, Box<ParseError>>(err), calls0)); }
                    return Err(err);
                },
            }
            match self.expect_char('=') {
                Ok(()) => {},
                Err(err) => {
                    proof { assert(do_let_result(*old(self), *self, Err::<Syntax, Box<ParseError>>(err), calls0)); }
                    return Err(err);
                },
            }
            false
        };
        let ghost a2 = self.offset() as int;
        self.skip_whitespace();
        proof {
            lemma_trivia_end(t, a2);
            self.lemma_wf();
        }
        let ghost cv = self.offset() as int;
        let resv = term(self);
        proof { self.lemma_wf(); }
        let ghost calls1 = calls0.push(TermCall { start: cv, end: self.offset() as int, result: resv });
        proof {
            assert((if has_ty { calls1.drop_first() } else { calls1 }) =~= seq![calls1.last()]);
        }
        let value = match resv {
            Ok(x) => x,
            Err(err) => {
                proof { assert(do_let_result(*old(self), *self, Err::<Syntax, Box<ParseError>>(err), calls1)); }
                return Err(err);
            },
        };
        let ghost gv = value;
        children.push(value);
        let ghost cs = children@;
        let range = self.input().range_from(start);
        let kind = if is_bind {
            SyntaxKind::Bind
        } else {
            SyntaxKind::Let
        };
        let node = self.create_node(kind, range, children);
        proof {
            assert(cs.drop_first() =~= ty.push(gv));
            assert(do_let_result(*old(self), *self, Ok::<Syntax, Box<ParseError>>(node), calls1));
        }
        Ok(node)
    }

    /// An expression statement of a `do` block: `x ← value` (or `x <- value`)
    /// where that reads, else a plain term (see `do_expr_result`; the calls
    /// are ones that `term` can make, which leaves the saved positions as it
    /// found them and moves on where it succeeds).
    #[verifier::spinoff_prover]
    #[verifier::rlimit(60)]
    pub fn do_expr_stmt<F>(&mut self, term: F) -> (r: ParserResult<Syntax>) where
        F: Fn(&mut Parser) -> ParserResult<Syntax>,
        requires
            old(self).wf(),
            forall|q: &mut Parser| q.wf() ==> term.requires((q,)),
            forall|q: &mut Parser, x: ParserResult<Syntax>|
                term.ensures((q,), x) ==> {
                    &&& final(q).wf()
                    &&& final(q).text() == q.text()
                    &&& final(q).offset() >= q.offset()
                    &&& final(q).saved() == q.saved()
                    &&& x is Ok ==> final(q).offset() > q.offset()
                },
        ensures
            final(self).wf(),
            r is Ok ==> final(self).offset() > old(self).offset(),
            exists|calls: Seq<TermCall>|
                #![trigger do_expr_result(*old(self), *final(self), r, calls)]
                {
                    &&& do_expr_result(*old(self), *final(self), r, calls)
                    &&& forall|j: int|
                        #![trigger calls[j]]
                        0 <= j < calls.len() ==> exists|q: &mut Parser|
                            #![trigger term.ensures((q,), calls[j].result)]
                            {
                                &&& q.text() == old(self).text()
                                &&& q.offset() == calls[j].start
                                &&& final(q).offset() == calls[j].end
                                &&& term.ensures((q,), calls[j].result)
                            }
                },
    {
        proof { self.lemma_wf(); }
        let ghost t = self.text();
        let ghost i = self.offset() as int;
        let ghost none: Seq<TermCall> = Seq::empty();
        let start = self.position();
        self.save_position();
        let ghost p0 = *self;
        let ghost mut calls: Seq<TermCall> = Seq::empty();
        let attempt: Option<(Syntax, Syntax)> = match self.identifier() {
            Err(_) => None,
            Ok(pattern) => {
                proof {
                    lemma_ident_at(t, trivia_end(t, i));
                    crate::scan::lemma_trivia_end(t, i);
                    self.lemma_wf();
                }
                let ghost e = self.offset() as int;
                self.skip_whitespace();
                proof {
                    lemma_trivia_end(t, e);
                    self.lemma_wf();
                }
                let arrow = if self.peek() == Some('←') {
                    self.advance();
                    true
                } else if self.peek() == Some('<') && self.peek_nth(1) == Some('-') {
                    self.advance();
                    self.advance();
                    true
                } else {
                    false
                };
                if !arrow {
                    None
                } else {
                    let ghost a = self.offset() as int;
                    self.skip_whitespace();
                    proof {
                        lemma_trivia_end(t, a);
                        self.lemma_wf();
                    }
                    let ghost c = self.offset() as int;
                    let res = term(self);
                    proof {
                        self.lemma_wf();
                        calls = seq![TermCall { start: c, end: self.offset() as int, result: res }];
                    }
                    match res {
                        Ok(v) => Some((pattern, v)),
                        Err(_) => None,
                    }
                }
            },
        };
        match attempt {
            Some((pattern, v)) => {
                self.commit_position();
                let ghost gp = pattern;
                let ghost gv = v;
                let range = self.input().range_from(start);
                let mut children: Vec<Syntax> = Vec::new();
                children.push(pattern);
                children.push(v);
                let node = self.create_node(SyntaxKind::Bind, range, children);
                proof { assert(do_expr_result(*old(self), *self, Ok::<Syntax, Box<ParseError>>(node), calls)); }
                Ok(node)
            },
            None => {
                self.restore_position();
                proof { self.lemma_wf(); }
                let res = term(self);
                proof { self.lemma_wf(); }
                let ghost call = TermCall { start: i, end: self.offset() as int, result: res };
                let ghost all = calls.push(call);
                proof {
                    assert(all.drop_first() =~= if calls.len() == 1 { seq![call] } else { all.drop_first() });
                    assert forall|jj: int| #![trigger all[jj]] 0 <= jj < all.len() implies exists|q: &mut Parser|
                        #![trigger term.ensures((q,), all[jj].result)]
                        {
                            &&& q.text() == t
                            &&& q.offset() == all[jj].start
                            &&& final(q).offset() == all[jj].end
                            &&& term.ensures((q,), all[jj].result)
                        } by {
                        if jj < calls.len() {
                            assert(all[jj] == calls[jj]);
                        }
                    }
                    assert(do_expr_result(*old(self), *self, res, all));
                }
                res
            },
        }
    }
}

} // verus!
