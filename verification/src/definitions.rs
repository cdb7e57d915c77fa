//! Definitions: `[attributes] def name binders [: type] [where term] := value`.
use vstd::prelude::*;
use crate::attributes::{Lex, err_is, ident_lex};
use crate::declarations::{BinderPhase, BinderStep, binders_result, binders_valid, flatten, is_name_atom, step_results};
use crate::error::{ParseError, ParserResult, is_expected};
use crate::interpolation::TermCall;
use crate::literals::expect_error;
use crate::parser::{Parser, attribute_list_at, keyword_at, lemma_ident_at};
use crate::scan::{extends_with_trivia, lemma_trivia_end, trivia_end};
use crate::syntax::{pos_at, range_at, SourcePos, Syntax, SyntaxKind, Trivia};

verus! {

/// `a` holds copies of the trivia `b`: the same kinds, spans and texts.
pub open spec fn trivia_copies(a: Seq<Trivia>, b: Seq<Trivia>) -> bool {
    &&& a.len() == b.len()
    &&& forall|k: int|
        0 <= k < a.len() ==> #[trigger] a[k].kind == b[k].kind && a[k].range == b[k].range && a[k].text@ == b[k].text@
}

/// How an optional part ends: absent; read, with its syntax and where the
/// cursor was left; failed, with the error and where the cursor was left;
/// or the calls do not fit the text.
pub ghost enum OptPart {
    Absent,
    Read(Syntax, int),
    Failed(Box<ParseError>, int),
    Stuck,
}

/// An optional part that is `present` or not, read from `start` by the
/// first of the calls `tc`.
pub open spec fn opt_part(present: bool, start: int, tc: Seq<TermCall>) -> OptPart {
    if !present {
        OptPart::Absent
    } else if tc.len() == 0 || tc[0].start != start {
        OptPart::Stuck
    } else {
        match tc[0].result {
            Ok(x) => OptPart::Read(x, tc[0].end),
            Err(e) => OptPart::Failed(e, tc[0].end),
        }
    }
}

/// The syntax of an optional part: one item where it was read, else none.
pub open spec fn part_syntax(o: OptPart) -> Seq<Syntax> {
    match o {
        OptPart::Read(x, _) => seq![x],
        _ => Seq::empty(),
    }
}

/// Where the cursor stands after an optional part that did not fail:
/// where its term ended, or `k` where it is absent.
pub open spec fn part_end(o: OptPart, k: int) -> int {
    match o {
        OptPart::Read(_, e) => e,
        _ => k,
    }
}

/// What a definition holds before its value: the attributes, the name
/// (where it starts and ends and its text), the binder groups, the type and
/// the `where` term (each of the last two absent or one item).
pub ghost struct DefParts {
    pub attrs: Seq<Syntax>,
    pub nm: (int, int, Seq<char>),
    pub bres: Seq<Syntax>,
    pub ty: Seq<Syntax>,
    pub wh: Seq<Syntax>,
}

/// `cs` are the attributes, the name, the binder groups, the type and the
/// `where` term of `parts`, in that order.
pub open spec fn def_children(cs: Seq<Syntax>, t: Seq<char>, parts: DefParts) -> bool {
    let a = parts.attrs.len() as int;
    &&& cs.len() == a + 1 + parts.bres.len() + parts.ty.len() + parts.wh.len()
    &&& cs == parts.attrs + seq![cs[a]] + parts.bres + parts.ty + parts.wh
    &&& is_name_atom(cs[a], t, parts.nm.0, parts.nm.1, parts.nm.2)
}

/// `r` is a `Def` node spanning from `i` to `end`, with the children of
/// `parts` and the value `v`, which carries copies of the trivia collected
/// from `i` on after `pt`.
pub open spec fn def_node(r: ParserResult<Syntax>, t: Seq<char>, i: int, end: int, pt: Seq<Trivia>, parts: DefParts, v: Syntax) -> bool {
    r matches Ok(x) && x matches Syntax::Node(n) && {
        let cs = n.children@;
        &&& n.kind == SyntaxKind::Def
        &&& n.range == range_at(t, i as nat, end as nat)
        &&& cs.len() >= 1
        &&& def_children(cs.drop_last(), t, parts)
        &&& cs.last() == v
        &&& exists|s: Seq<Trivia>| #[trigger] extends_with_trivia(pt, s, t, i) && trivia_copies(n.leading_trivia@, s)
    }
}

/// The value of a definition at `n`: `:=`, whitespace and comments, and the
/// term read by the call `tc`.
pub open spec fn def_value(
    t: Seq<char>,
    i: int,
    pt: Seq<Trivia>,
    parts: DefParts,
    n: int,
    tc: Seq<TermCall>,
    q: Parser,
    r: ParserResult<Syntax>,
) -> bool {
    if !(0 <= n < t.len() && t[n] == ':') {
        &&& tc.len() == 0
        &&& q.offset() == n
        &&& r matches Err(e) && expect_error(*e, t, n, ':')
    } else if !(n + 1 < t.len() && t[n + 1] == '=') {
        &&& tc.len() == 0
        &&& q.offset() == n + 1
        &&& r matches Err(e) && expect_error(*e, t, n + 1, '=')
    } else if tc.len() != 1 || tc[0].start != trivia_end(t, n + 2) {
        false
    } else {
        &&& q.offset() == tc[0].end
        &&& match tc[0].result {
            Err(e) => r == Err::<Syntax, Box<ParseError>>(e),
            Ok(v) => def_node(r, t, i, tc[0].end, pt, parts, v),
        }
    }
}

/// The rest of a definition after its binder groups, at `kb`: an optional
/// type (`:` not followed by `=`, whitespace and comments, a term),
/// whitespace and comments, an optional `where` term (the keyword,
/// whitespace and comments, a term), whitespace and comments, and the
/// value (see `def_value`); each term is read by the next of the calls
/// `tc`.
pub open spec fn def_rest(
    t: Seq<char>,
    i: int,
    pt: Seq<Trivia>,
    attrs: Seq<Syntax>,
    nm: (int, int, Seq<char>),
    bres: Seq<Syntax>,
    kb: int,
    tc: Seq<TermCall>,
    q: Parser,
    r: ParserResult<Syntax>,
) -> bool {
    let has_ty = 0 <= kb < t.len() && t[kb] == ':' && !(kb + 1 < t.len() && t[kb + 1] == '=');
    let o1 = opt_part(has_ty, trivia_end(t, kb + 1), tc);
    match o1 {
        OptPart::Stuck => false,
        OptPart::Failed(e, at) => tc.len() == 1 && q.offset() == at && r == Err::<Syntax, Box<ParseError>>(e),
        _ => {
            let tc1 = if has_ty { tc.drop_first() } else { tc };
            let w = trivia_end(t, part_end(o1, kb));
            let o2 = opt_part(keyword_at(t, w, "where"@), trivia_end(t, w + 5), tc1);
            match o2 {
                OptPart::Stuck => false,
                OptPart::Failed(e, at) => tc1.len() == 1 && q.offset() == at && r == Err::<Syntax, Box<ParseError>>(e),
                _ => {
                    let tc2 = if keyword_at(t, w, "where"@) { tc1.drop_first() } else { tc1 };
                    let parts = DefParts { attrs, nm, bres, ty: part_syntax(o1), wh: part_syntax(o2) };
                    def_value(t, i, pt, parts, trivia_end(t, part_end(o2, w)), tc2, q, r)
                },
            }
        },
    }
}

/// What `def_command` returns from `p`, given the calls of the attribute
/// parser (`acalls`) and of the term parser (`tcalls`) and the binder
/// groups read: whitespace and comments; attributes, where `@` or an
/// attribute list stands there, and whitespace and comments; `def`,
/// whitespace and comments, an identifier, whitespace and comments, the
/// binder groups (see `binders_valid`) and the rest (see `def_rest`).
pub open spec fn def_result(
    p: Parser,
    q: Parser,
    r: ParserResult<Syntax>,
    acalls: Seq<TermCall>,
    tcalls: Seq<TermCall>,
    bsteps: Seq<BinderStep>,
    bphase: BinderPhase,
) -> bool {
    let t = p.text();
    let i = p.offset() as int;
    let k1 = trivia_end(t, i);
    let has_attrs = (0 <= k1 < t.len() && t[k1] == '@') || attribute_list_at(t, k1);
    let oa = opt_part(has_attrs, k1, acalls);
    &&& q.text() == t
    &&& match oa {
        OptPart::Stuck => false,
        OptPart::Failed(e, at) => acalls.len() == 1 && tcalls.len() == 0 && q.offset() == at && r == Err::<
            Syntax,
            Box<ParseError>,
        >(e),
        _ => {
            let attrs = part_syntax(oa);
            let k2 = trivia_end(t, part_end(oa, k1));
            let j = trivia_end(t, k2 + 3);
            &&& acalls.len() == attrs.len()
            &&& if !keyword_at(t, k2, "def"@) {
                &&& tcalls.len() == 0
                &&& q.offset() == k2
                &&& r matches Err(e) && is_expected(*e, "keyword 'def'"@, pos_at(t, k2 as nat))
            } else {
                match ident_lex(t, j) {
                    Lex::Token(name, e) => {
                        let bfl = flatten(bsteps);
                        &&& binders_valid(t, trivia_end(t, e), bsteps, bphase)
                        &&& tcalls.len() >= bfl.len()
                        &&& tcalls.subrange(0, bfl.len() as int) == bfl
                        &&& match bphase {
                            BinderPhase::Failed(_, cs, err, at) => {
                                &&& tcalls == bfl + cs
                                &&& q.offset() == at
                                &&& r == Err::<Syntax, Box<ParseError>>(err)
                            },
                            BinderPhase::Ended(kb) => def_rest(
                                t,
                                i,
                                p.trivia(),
                                attrs,
                                (j, e, name),
                                step_results(bsteps),
                                kb,
                                tcalls.subrange(bfl.len() as int, tcalls.len() as int),
                                q,
                                r,
                            ),
                        }
                    },
                    Lex::Fail(s, o) => tcalls.len() == 0 && q.offset() == o && (r matches Err(err) && err_is(*err, s, t, o)),
                    Lex::Paren => false,
                }
            }
        },
    }
}


impl Parser {
    /// `:= value` at the cursor, then the `Def` node with `children` and the
    /// value, spanning from `i` and carrying the trivia `saved` (see
    /// `def_value`; the call is one that `term` can make).
    #[verifier::spinoff_prover]
    #[verifier::rlimit(60)]
    fn def_value_part<F>(
        &mut self,
        start: SourcePos,
        saved: Vec<Trivia>,
        children: Vec<Syntax>,
        Ghost(i): Ghost<int>,
        Ghost(pt): Ghost<Seq<Trivia>>,
        Ghost(s): Ghost<Seq<Trivia>>,
        Ghost(parts): Ghost<DefParts>,
        term: F,
    ) -> (r: ParserResult<Syntax>) where
        F: Fn(&mut Parser) -> ParserResult<Syntax>,
        requires
            old(self).wf(),
            0 <= i,
            start == pos_at(old(self).text(), i as nat),
            extends_with_trivia(pt, s, old(self).text(), i),
            trivia_copies(saved@, s),
            def_children(children@, old(self).text(), parts),
            forall|q: &mut Parser| q.wf() ==> term.requires((q,)),
            forall|q: &mut Parser, x: ParserResult<Syntax>|
                term.ensures((q,), x) ==> {
                    &&& final(q).wf()
                    &&& final(q).text() == q.text()
                    &&& final(q).offset() >= q.offset()
                },
        ensures
            final(self).wf(),
            final(self).text() == old(self).text(),
            exists|tc: Seq<TermCall>|
                #![trigger def_value(old(self).text(), i, pt, parts, old(self).offset() as int, tc, *final(self), r)]
                {
                    &&& def_value(old(self).text(), i, pt, parts, old(self).offset() as int, tc, *final(self), r)
                    &&& forall|j: int|
                        #![trigger tc[j]]
                        0 <= j < tc.len() ==> exists|q: &mut Parser|
                            #![trigger term.ensures((q,), tc[j].result)]
                            {
                                &&& q.text() == old(self).text()
                                &&& q.offset() == tc[j].start
                                &&& final(q).offset() == tc[j].end
                                &&& term.ensures((q,), tc[j].result)
                            }
                },
    {
        proof { self.lemma_wf(); }
        let ghost t = self.text();
        let ghost n = self.offset() as int;
        let ghost none: Seq<TermCall> = Seq::empty();
        match self.expect_char(':') {
            Ok(()) => {},
            Err(e) => {
                proof { assert(def_value(t, i, pt, parts, n, none, *self, Err::<Syntax, Box<ParseError>>(e))); }
                return Err(e);
            },
        }
        match self.expect_char('=') {
            Ok(()) => {},
            Err(e) => {
                proof { assert(def_value(t, i, pt, parts, n, none, *self, Err::<Syntax, Box<ParseError>>(e))); }
                return Err(e);
            },
        }
        self.skip_whitespace();
        proof {
            lemma_trivia_end(t, n + 2);
            self.lemma_wf();
        }
        let ghost c = self.offset() as int;
        let res = term(self);
        proof { self.lemma_wf(); }
        let ghost call = TermCall { start: c, end: self.offset() as int, result: res };
        let ghost tc = seq![call];
        let v = match res {
            Ok(v) => v,
            Err(e) => {
                proof { assert(def_value(t, i, pt, parts, n, tc, *self, Err::<Syntax, Box<ParseError>>(e))); }
                return Err(e);
            },
        };
        let ghost c0 = children@;
        let ghost gv = v;
        let mut children = children;
        children.push(v);
        let range = self.input().range_from(start);
        self.restore_leading_trivia(saved);
        let node = self.create_node(SyntaxKind::Def, range, children);
        proof {
            assert(c0.push(gv).drop_last() =~= c0);
            assert(def_node(Ok::<Syntax, Box<ParseError>>(node), t, i, call.end, pt, parts, gv));
            assert(def_value(t, i, pt, parts, n, tc, *self, Ok::<Syntax, Box<ParseError>>(node)));
        }
        Ok(node)
    }

    /// The rest of a definition after its binder groups, at the cursor (see
    /// `def_rest`; the calls are ones that `term` can make): `children`
    /// holds the attributes `attrs`, the name and the binder groups `bres`.
    #[verifier::spinoff_prover]
    #[verifier::rlimit(80)]
    fn def_rest_part<F>(
        &mut self,
        start: SourcePos,
        saved: Vec<Trivia>,
        children: Vec<Syntax>,
        Ghost(i): Ghost<int>,
        Ghost(pt): Ghost<Seq<Trivia>>,
        Ghost(s): Ghost<Seq<Trivia>>,
        Ghost(attrs): Ghost<Seq<Syntax>>,
        Ghost(nm): Ghost<(int, int, Seq<char>)>,
        Ghost(bres): Ghost<Seq<Syntax>>,
        term: F,
    ) -> (r: ParserResult<Syntax>) where
        F: Fn(&mut Parser) -> ParserResult<Syntax> + Copy,
        requires
            old(self).wf(),
            0 <= i,
            start == pos_at(old(self).text(), i as nat),
            extends_with_trivia(pt, s, old(self).text(), i),
            trivia_copies(saved@, s),
            def_children(children@, old(self).text(), DefParts { attrs, nm, bres, ty: Seq::empty(), wh: Seq::empty() }),
            forall|q: &mut Parser| q.wf() ==> term.requires((q,)),
            forall|q: &mut Parser, x: ParserResult<Syntax>|
                term.ensures((q,), x) ==> {
                    &&& final(q).wf()
                    &&& final(q).text() == q.text()
                    &&& final(q).offset() >= q.offset()
                },
        ensures
            final(self).wf(),
            final(self).text() == old(self).text(),
            exists|tc: Seq<TermCall>|
                #![trigger def_rest(old(self).text(), i, pt, attrs, nm, bres, old(self).offset() as int, tc, *final(self), r)]
                {
                    &&& def_rest(old(self).text(), i, pt, attrs, nm, bres, old(self).offset() as int, tc, *final(self), r)
                    &&& forall|j: int|
                        #![trigger tc[j]]
                        0 <= j < tc.len() ==> exists|q: &mut Parser|
                            #![trigger term.ensures((q,), tc[j].result)]
                            {
                                &&& q.text() == old(self).text()
                                &&& q.offset() == tc[j].start
                                &&& final(q).offset() == tc[j].end
                                &&& term.ensures((q,), tc[j].result)
                            }
                },
    {
        proof {
            self.lemma_wf();
            reveal_strlit("where");
        }
        let ghost t = self.text();
        let ghost kb = self.offset() as int;
        let ghost none: Seq<TermCall> = Seq::empty();
        let mut children = children;
        let ghost c0 = children@;
        let has_ty = self.peek() == Some(':') && self.peek_nth(1) != Some('=');
        let ghost mut tc1: Seq<TermCall> = Seq::empty();
        let ghost mut ty: Seq<Syntax> = Seq::empty();
        if has_ty {
            self.advance();
            self.skip_whitespace();
            proof {
                lemma_trivia_end(t, kb + 1);
                self.lemma_wf();
            }
            let ghost c = self.offset() as int;
            let res = term(self);
            proof { self.lemma_wf(); }
            let ghost call = TermCall { start: c, end: self.offset() as int, result: res };
            proof { tc1 = seq![call]; }
            match res {
                Ok(x) => {
                    proof { ty = seq![x]; }
                    children.push(x);
                },
                Err(e) => {
                    proof { assert(def_rest(t, i, pt, attrs, nm, bres, kb, tc1, *self, Err::<Syntax, Box<ParseError>>(e))); }
                    return Err(e);
                },
            }
        }
        let ghost a1 = self.offset() as int;
        self.skip_whitespace();
        proof {
            lemma_trivia_end(t, a1);
            self.lemma_wf();
        }
        let ghost w = self.offset() as int;
        let has_where = self.peek_keyword("where");
        let ghost mut tc2: Seq<TermCall> = Seq::empty();
        let ghost mut wh: Seq<Syntax> = Seq::empty();
        if has_where {
            let _ = self.keyword("where");
            self.skip_whitespace();
            proof {
                lemma_trivia_end(t, w + 5);
                self.lemma_wf();
            }
            let ghost c = self.offset() as int;
            let res = term(self);
            proof { self.lemma_wf(); }
            let ghost call = TermCall { start: c, end: self.offset() as int, result: res };
            proof { tc2 = seq![call]; }
            match res {
                Ok(x) => {
                    proof { wh = seq![x]; }
                    children.push(x);
                },
                Err(e) => {
                    proof {
                        assert((if has_ty { (tc1 + tc2).drop_first() } else { tc1 + tc2 }) =~= tc2);
                        assert(def_rest(t, i, pt, attrs, nm, bres, kb, tc1 + tc2, *self, Err::<Syntax, Box<ParseError>>(e)));
                    }
                    return Err(e);
                },
            }
        }
        let ghost a2 = self.offset() as int;
        self.skip_whitespace();
        proof {
            lemma_trivia_end(t, a2);
            self.lemma_wf();
        }
        let ghost parts = DefParts { attrs, nm, bres, ty, wh };
        proof {
            let cs = children@;
            let a = attrs.len() as int;
            assert(cs =~= c0 + ty + wh);
            assert(c0 =~= attrs + seq![c0[a]] + bres + Seq::<Syntax>::empty() + Seq::<Syntax>::empty());
            assert(cs[a] == c0[a]);
            assert(cs =~= attrs + seq![cs[a]] + bres + ty + wh);
            assert(def_children(children@, t, parts));
        }
        let ghost pv = *self;
        let r = self.def_value_part(start, saved, children, Ghost(i), Ghost(pt), Ghost(s), Ghost(parts), term);
        proof {
            let tc3 = choose|tc: Seq<TermCall>|
                {
                    &&& def_value(t, i, pt, parts, pv.offset() as int, tc, *self, r)
                    &&& forall|j: int|
                        #![trigger tc[j]]
                        0 <= j < tc.len() ==> exists|q: &mut Parser|
                            #![trigger term.ensures((q,), tc[j].result)]
                            {
                                &&& q.text() == t
                                &&& q.offset() == tc[j].start
                                &&& final(q).offset() == tc[j].end
                                &&& term.ensures((q,), tc[j].result)
                            }
                };
            let all = tc1 + tc2 + tc3;
            assert((if has_ty { all.drop_first() } else { all }) =~= tc2 + tc3);
            assert((if has_where { (tc2 + tc3).drop_first() } else { tc2 + tc3 }) =~= tc3);
            assert forall|jj: int| #![trigger all[jj]] 0 <= jj < all.len() implies exists|q: &mut Parser|
                #![trigger term.ensures((q,), all[jj].result)]
                {
                    &&& q.text() == t
                    &&& q.offset() == all[jj].start
                    &&& final(q).offset() == all[jj].end
                    &&& term.ensures((q,), all[jj].result)
                } by {
                if jj >= tc1.len() + tc2.len() {
                    assert(all[jj] == tc3[jj - tc1.len() - tc2.len()]);
                }
            }
            assert(def_rest(t, i, pt, attrs, nm, bres, kb, all, *self, r));
        }
        r
    }

    /// `[attributes] def name binders [: type] [where term] := value` (see
    /// `def_result`): the attributes are read by `attrs`, every term by
    /// `term`; the `Def` node carries the whitespace and comments that stand
    /// before the attributes.
    #[verifier::spinoff_prover]
    #[verifier::rlimit(80)]
    pub fn def_command<P, F>(&mut self, attrs: P, term: F) -> (r: ParserResult<Syntax>) where
        P: Fn(&mut Parser) -> ParserResult<Syntax>,
        F: Fn(&mut Parser) -> ParserResult<Syntax> + Copy,
        requires
            old(self).wf(),
            forall|q: &mut Parser| q.wf() ==> attrs.requires((q,)),
            forall|q: &mut Parser, x: ParserResult<Syntax>|
                attrs.ensures((q,), x) ==> {
                    &&& final(q).wf()
                    &&& final(q).text() == q.text()
                    &&& final(q).offset() >= q.offset()
                },
            forall|q: &mut Parser| q.wf() ==> term.requires((q,)),
            forall|q: &mut Parser, x: ParserResult<Syntax>|
                term.ensures((q,), x) ==> {
                    &&& final(q).wf()
                    &&& final(q).text() == q.text()
                    &&& final(q).offset() >= q.offset()
                },
        ensures
            final(self).wf(),
            exists|acalls: Seq<TermCall>, tcalls: Seq<TermCall>, bsteps: Seq<BinderStep>, bphase: BinderPhase|
                #![trigger def_result(*old(self), *final(self), r, acalls, tcalls, bsteps, bphase)]
                {
                    &&& def_result(*old(self), *final(self), r, acalls, tcalls, bsteps, bphase)
                    &&& forall|j: int|
                        #![trigger acalls[j]]
                        0 <= j < acalls.len() ==> exists|q: &mut Parser|
                            #![trigger attrs.ensures((q,), acalls[j].result)]
                            {
                                &&& q.text() == old(self).text()
                                &&& q.offset() == acalls[j].start
                                &&& final(q).offset() == acalls[j].end
                                &&& attrs.ensures((q,), acalls[j].result)
                            }
                    &&& forall|j: int|
                        #![trigger tcalls[j]]
                        0 <= j < tcalls.len() ==> exists|q: &mut Parser|
                            #![trigger term.ensures((q,), tcalls[j].result)]
                            {
                                &&& q.text() == old(self).text()
                                &&& q.offset() == tcalls[j].start
                                &&& final(q).offset() == tcalls[j].end
                                &&& term.ensures((q,), tcalls[j].result)
                            }
                },
    {
        proof {
            self.lemma_wf();
            reveal_strlit("def");
        }
        let ghost t = self.text();
        let ghost i = self.offset() as int;
        let ghost pt = self.trivia();
        let ghost none: Seq<TermCall> = Seq::empty();
        let ghost nosteps: Seq<BinderStep> = Seq::empty();
        let ghost anyphase = BinderPhase::Ended(0);
        let start = self.position();
        self.skip_whitespace();
        proof {
            lemma_trivia_end(t, i);
            self.lemma_wf();
        }
        let ghost s = self.trivia();
        let saved = self.save_leading_trivia();
        let ghost k1 = self.offset() as int;
        let has_attrs = self.peek() == Some('@') || (self.peek() == Some('[') && self.peek_attribute_list());
        let mut children: Vec<Syntax> = Vec::new();
        let ghost mut acalls: Seq<TermCall> = Seq::empty();
        if has_attrs {
            let res = attrs(self);
            proof { self.lemma_wf(); }
            let ghost call = TermCall { start: k1, end: self.offset() as int, result: res };
            proof { acalls = seq![call]; }
            match res {
                Ok(a) => {
                    children.push(a);
                },
                Err(e) => {
                    proof {
                        assert(def_result(*old(self), *self, Err::<Syntax, Box<ParseError>>(e), acalls, none, nosteps, anyphase));
                    }
                    return Err(e);
                },
            }
        }
        let ghost gattrs = children@;
        let ghost a1 = self.offset() as int;
        self.skip_whitespace();
        proof {
            lemma_trivia_end(t, a1);
            self.lemma_wf();
        }
        let ghost k2 = self.offset() as int;
        match self.keyword("def") {
            Ok(()) => {},
            Err(e) => {
                proof {
                    assert("keyword '"@ + "def"@ + "'"@ =~= "keyword 'def'"@) by {
                        reveal_strlit("keyword '");
                        reveal_strlit("'");
                        reveal_strlit("keyword 'def'");
                    }
                    assert(def_result(*old(self), *self, Err::<Syntax, Box<ParseError>>(e), acalls, none, nosteps, anyphase));
                }
                return Err(e);
            },
        }
        self.skip_whitespace();
        proof {
            lemma_trivia_end(t, k2 + 3);
            self.lemma_wf();
        }
        let ghost j = self.offset() as int;
        let name = match self.identifier() {
            Ok(n) => n,
            Err(e) => {
                proof {
                    assert(def_result(*old(self), *self, Err::<Syntax, Box<ParseError>>(e), acalls, none, nosteps, anyphase));
                }
                return Err(e);
            },
        };
        proof {
            lemma_ident_at(t, j);
            self.lemma_wf();
        }
        let ghost e = self.offset() as int;
        let ghost nm: (int, int, Seq<char>) = match ident_lex(t, j) {
            Lex::Token(v, e) => (j, e, v),
            _ => (0, 0, Seq::empty()),
        };
        let ghost gname = name;
        children.push(name);
        self.skip_whitespace();
        proof {
            lemma_trivia_end(t, e);
            self.lemma_wf();
        }
        let ghost p1 = *self;
        let binders_res = self.parse_binders(term);
        let ghost (bcalls, bsteps, bphase) = choose|calls: Seq<TermCall>, steps: Seq<BinderStep>, phase: BinderPhase|
            {
                &&& binders_result(p1, *self, binders_res, calls, steps, phase)
                &&& forall|j: int|
                    #![trigger calls[j]]
                    0 <= j < calls.len() ==> exists|q: &mut Parser|
                        #![trigger term.ensures((q,), calls[j].result)]
                        {
                            &&& q.text() == t
                            &&& q.offset() == calls[j].start
                            &&& final(q).offset() == calls[j].end
                            &&& term.ensures((q,), calls[j].result)
                        }
            };
        proof {
            self.lemma_wf();
            assert(bcalls.subrange(0, flatten(bsteps).len() as int) =~= flatten(bsteps));
        }
        let mut binders = match binders_res {
            Ok(v) => v,
            Err(err) => {
                proof {
                    assert(def_result(*old(self), *self, Err::<Syntax, Box<ParseError>>(err), acalls, bcalls, bsteps, bphase));
                }
                return Err(err);
            },
        };
        let ghost c1 = children@;
        let ghost vb = binders@;
        children.append(&mut binders);
        proof {
            let cs = children@;
            let a = gattrs.len() as int;
            assert(c1 =~= gattrs.push(gname));
            assert(cs =~= c1 + vb);
            assert(cs[a] == gname);
            assert(cs =~= gattrs + seq![cs[a]] + vb + Seq::<Syntax>::empty() + Seq::<Syntax>::empty());
            assert(vb =~= step_results(bsteps));
        }
        let ghost kb = self.offset() as int;
        let r = self.def_rest_part(start, saved, children, Ghost(i), Ghost(pt), Ghost(s), Ghost(gattrs), Ghost(nm), Ghost(vb), term);
        proof {
            let tc = choose|tc: Seq<TermCall>|
                {
                    &&& def_rest(t, i, pt, gattrs, nm, vb, kb, tc, *self, r)
                    &&& forall|j: int|
                        #![trigger tc[j]]
                        0 <= j < tc.len() ==> exists|q: &mut Parser|
                            #![trigger term.ensures((q,), tc[j].result)]
                            {
                                &&& q.text() == t
                                &&& q.offset() == tc[j].start
                                &&& final(q).offset() == tc[j].end
                                &&& term.ensures((q,), tc[j].result)
                            }
                };
            let tcalls = bcalls + tc;
            assert(tcalls.subrange(0, flatten(bsteps).len() as int) =~= flatten(bsteps));
            assert(tcalls.subrange(flatten(bsteps).len() as int, tcalls.len() as int) =~= tc);
            assert forall|jj: int| #![trigger tcalls[jj]] 0 <= jj < tcalls.len() implies exists|q: &mut Parser|
                #![trigger term.ensures((q,), tcalls[jj].result)]
                {
                    &&& q.text() == t
                    &&& q.offset() == tcalls[jj].start
                    &&& final(q).offset() == tcalls[jj].end
                    &&& term.ensures((q,), tcalls[jj].result)
                } by {
                if jj < bcalls.len() {
                    assert(tcalls[jj] == bcalls[jj]);
                } else {
                    assert(tcalls[jj] == tc[jj - bcalls.len()]);
                }
            }
            assert(def_result(*old(self), *self, r, acalls, tcalls, bsteps, bphase));
        }
        r
    }
}

} // verus!
