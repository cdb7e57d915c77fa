//! Mathlib tactics whose arguments are terms: `linarith [h₁, h₂]`, and
//! `simp_all` and `field_simp` with `only`, a list of lemmas and a
//! configuration. A term parser given by the caller reads the terms.
use vstd::prelude::*;
use crate::error::{ParseError, ParserResult, is_eof, is_expected};
use crate::interpolation::TermCall;
use crate::parser::{Parser, keyword_at};
use crate::scan::{lemma_trivia_end, trivia_end};
use crate::syntax::{pos_at, range_at, Syntax, SyntaxKind};
use crate::tactics::{is_tactic_atom, keyword_missing};

verus! {

/// How reading a list of terms ends.
pub ghost enum ListEnd {
    /// With these items, the cursor at the index given.
    Done(Seq<Syntax>, int),
    /// With the error the term parser gave; the cursor where it left it.
    TermError(Box<ParseError>, int),
    /// With an error saying what was expected at the index given.
    Expected(Seq<char>, int),
    /// The calls do not fit the text.
    Stuck,
}

/// The terms of a bracketed list from `k` on, `k` standing after `[` and
/// after whitespace and comments: up to `]`, each term read by the next of
/// `calls` and followed by whitespace and comments, then `,` (and more
/// whitespace and comments) or the closing `]`; anything else is an error.
pub open spec fn term_list(t: Seq<char>, k: int, calls: Seq<TermCall>, items: Seq<Syntax>) -> ListEnd
    decreases t.len() - k,
{
    if 0 <= k < t.len() && t[k] == ']' {
        if calls.len() == 0 {
            ListEnd::Done(items, k + 1)
        } else {
            ListEnd::Stuck
        }
    } else if calls.len() == 0 || calls[0].start != k {
        ListEnd::Stuck
    } else {
        match calls[0].result {
            Err(e) => if calls.len() == 1 {
                ListEnd::TermError(e, calls[0].end)
            } else {
                ListEnd::Stuck
            },
            Ok(x) => {
                let n = trivia_end(t, calls[0].end);
                if 0 <= n < t.len() && t[n] == ',' {
                    let k2 = trivia_end(t, n + 1);
                    if k < k2 <= t.len() {
                        term_list(t, k2, calls.drop_first(), items.push(x))
                    } else {
                        ListEnd::Stuck
                    }
                } else if 0 <= n < t.len() && t[n] == ']' {
                    if calls.len() == 1 {
                        ListEnd::Done(items.push(x), n + 1)
                    } else {
                        ListEnd::Stuck
                    }
                } else if calls.len() == 1 {
                    ListEnd::Expected(", or ]"@, n)
                } else {
                    ListEnd::Stuck
                }
            },
        }
    }
}

/// `q` and `r` end a tactic that spans from `i` after its list ended with
/// `l`: a `CustomTactic` node whose children are the items, or the error.
pub open spec fn list_tactic_end(t: Seq<char>, i: int, l: ListEnd, q: Parser, r: ParserResult<Syntax>) -> bool {
    match l {
        ListEnd::Done(items, e) => {
            &&& q.offset() == e
            &&& r matches Ok(s) && s matches Syntax::Node(x) && {
                &&& x.kind == SyntaxKind::CustomTactic
                &&& x.range == range_at(t, i as nat, e as nat)
                &&& x.children@ == items
            }
        },
        ListEnd::TermError(e, o) => q.offset() == o && r == Err::<Syntax, Box<ParseError>>(e),
        ListEnd::Expected(m, o) => q.offset() == o && (r matches Err(e) && is_expected(*e, m, pos_at(t, o as nat))),
        ListEnd::Stuck => false,
    }
}

/// What `linarith_tactic` returns from `p`, given the calls of the term
/// parser: the keyword `linarith`, whitespace and comments, and, if `[`
/// follows, a list of hypotheses (see `term_list`), which become the
/// children of a `CustomTactic` node spanning from the keyword.
pub open spec fn linarith_result(p: Parser, q: Parser, r: ParserResult<Syntax>, calls: Seq<TermCall>) -> bool {
    let t = p.text();
    let i = p.offset() as int;
    let j = trivia_end(t, i + 8);
    &&& q.text() == t
    &&& if !keyword_at(t, i, "linarith"@) {
        calls.len() == 0 && keyword_missing(p, q, r, "linarith"@)
    } else if !(j < t.len() && t[j] == '[') {
        &&& calls.len() == 0
        &&& q.offset() == j
        &&& r matches Ok(s) && s matches Syntax::Node(x) && {
            &&& x.kind == SyntaxKind::CustomTactic
            &&& x.range == range_at(t, i as nat, j as nat)
            &&& x.children@.len() == 0
        }
    } else {
        list_tactic_end(t, i, term_list(t, trivia_end(t, j + 1), calls, Seq::empty()), q, r)
    }
}


/// A lemma of a simp list: the term read for it, whether `-` (remove it)
/// or `↑` stood before it, and where the term ended.
pub ghost struct SimpLemma {
    pub remove: bool,
    pub up: bool,
    pub lemma: Syntax,
    pub end: int,
}

/// How reading the lemmas of a simp list ends.
pub ghost enum LemmaList {
    /// With these lemmas, the `]` at the index given, and the calls left.
    Done(Seq<SimpLemma>, int, Seq<TermCall>),
    /// With the error the term parser gave; the cursor where it left it.
    TermError(Box<ParseError>, int),
    /// With `, or ]` expected at the index given.
    Expected(int),
    /// The calls do not fit the text.
    Stuck,
}

/// The lemmas of a simp list from `k`, `k` standing after `[` or `,` and
/// after whitespace and comments: up to `]`, each an optional `-`, an
/// optional `↑`, whitespace and comments, and a term read by the next of
/// `calls`, then whitespace and comments and `,` (and more whitespace and
/// comments) or `]`. The calls not used are handed on.
pub open spec fn simp_lemmas(t: Seq<char>, k: int, calls: Seq<TermCall>, items: Seq<SimpLemma>) -> LemmaList
    decreases t.len() - k,
{
    if 0 <= k < t.len() && t[k] == ']' {
        LemmaList::Done(items, k, calls)
    } else {
        let a = if 0 <= k < t.len() && t[k] == '-' { k + 1 } else { k };
        let b = if 0 <= a < t.len() && t[a] == '↑' { a + 1 } else { a };
        let c = trivia_end(t, b);
        if calls.len() == 0 || calls[0].start != c {
            LemmaList::Stuck
        } else {
            match calls[0].result {
                Err(e) => if calls.len() == 1 {
                    LemmaList::TermError(e, calls[0].end)
                } else {
                    LemmaList::Stuck
                },
                Ok(x) => {
                    let it = SimpLemma { remove: a != k, up: b != a, lemma: x, end: calls[0].end };
                    let n = trivia_end(t, calls[0].end);
                    if 0 <= n < t.len() && t[n] == ',' {
                        let k2 = trivia_end(t, n + 1);
                        if k < k2 <= t.len() {
                            simp_lemmas(t, k2, calls.drop_first(), items.push(it))
                        } else {
                            LemmaList::Stuck
                        }
                    } else if 0 <= n < t.len() && t[n] == ']' {
                        LemmaList::Done(items.push(it), n, calls.drop_first())
                    } else if calls.len() == 1 {
                        LemmaList::Expected(n)
                    } else {
                        LemmaList::Stuck
                    }
                },
            }
        }
    }
}

/// How reading an optional `(config := term)` ends.
pub ghost enum ConfigEnd {
    /// With the configuration term, if one was read, the cursor at the
    /// index given.
    Config(Option<Syntax>, int),
    /// With the error the term parser gave; the cursor where it left it.
    TermError(Box<ParseError>, int),
    /// With `')'` expected at the index given.
    Expected(int),
    /// With the input ending at the index given, where `)` was expected.
    Eof(int),
    /// The calls do not fit the text.
    Stuck,
}

/// The optional configuration from `m`: `(`, whitespace and comments, the
/// keyword `config`, whitespace and comments, `:=`, whitespace and
/// comments, a term read by the one call, whitespace and comments and
/// `)`. Where `(config :=` is not there, nothing is read and the cursor
/// stays at `m`.
pub open spec fn config_part(t: Seq<char>, m: int, calls: Seq<TermCall>) -> ConfigEnd {
    let a = trivia_end(t, m + 1);
    let b = trivia_end(t, a + 6);
    if !(0 <= m < t.len() && t[m] == '(') || !keyword_at(t, a, "config"@) || !(0 <= b && b + 1
        < t.len() && t[b] == ':' && t[b + 1] == '=') {
        if calls.len() == 0 {
            ConfigEnd::Config(None, m)
        } else {
            ConfigEnd::Stuck
        }
    } else if calls.len() != 1 || calls[0].start != trivia_end(t, b + 2) {
        ConfigEnd::Stuck
    } else {
        match calls[0].result {
            Err(e) => ConfigEnd::TermError(e, calls[0].end),
            Ok(x) => {
                let d = trivia_end(t, calls[0].end);
                if 0 <= d < t.len() && t[d] == ')' {
                    ConfigEnd::Config(Some(x), d + 1)
                } else if 0 <= d < t.len() {
                    ConfigEnd::Expected(d)
                } else {
                    ConfigEnd::Eof(d)
                }
            },
        }
    }
}

/// How reading the arguments of a simp tactic ends.
pub ghost enum SimpArgs {
    /// With `only` or not, the lemmas, the configuration, and the cursor.
    Parsed(bool, Seq<SimpLemma>, Option<Syntax>, int),
    /// With the error the term parser gave; the cursor where it left it.
    TermError(Box<ParseError>, int),
    /// With an error saying what was expected at the index given.
    Expected(Seq<char>, int),
    /// With the input ending at the index given.
    Eof(int),
    /// The calls do not fit the text.
    Stuck,
}

/// The arguments read before a configuration, joined with it.
pub open spec fn with_config(only: bool, items: Seq<SimpLemma>, c: ConfigEnd) -> SimpArgs {
    match c {
        ConfigEnd::Config(x, e) => SimpArgs::Parsed(only, items, x, e),
        ConfigEnd::TermError(e, o) => SimpArgs::TermError(e, o),
        ConfigEnd::Expected(d) => SimpArgs::Expected(seq!['\'', ')', '\''], d),
        ConfigEnd::Eof(d) => SimpArgs::Eof(d),
        ConfigEnd::Stuck => SimpArgs::Stuck,
    }
}

/// The arguments of a simp tactic from `j`: the keyword `only` and
/// whitespace and comments, if `only` stands there; a list of lemmas in
/// brackets (see `simp_lemmas`) and whitespace and comments, if `[`
/// follows; and an optional configuration (see `config_part`).
pub open spec fn simp_args(t: Seq<char>, j: int, calls: Seq<TermCall>) -> SimpArgs {
    let only = keyword_at(t, j, "only"@);
    let j1 = if only { trivia_end(t, j + 4) } else { j };
    if 0 <= j1 < t.len() && t[j1] == '[' {
        match simp_lemmas(t, trivia_end(t, j1 + 1), calls, Seq::empty()) {
            LemmaList::Done(items, c, rest) => with_config(
                only,
                items,
                config_part(t, trivia_end(t, c + 1), rest),
            ),
            LemmaList::TermError(e, o) => SimpArgs::TermError(e, o),
            LemmaList::Expected(o) => SimpArgs::Expected(", or ]"@, o),
            LemmaList::Stuck => SimpArgs::Stuck,
        }
    } else {
        with_config(only, Seq::empty(), config_part(t, j1, calls))
    }
}

/// `s` stands for the lemma `it`: the term itself, or, after `-` or `↑`,
/// a `CustomTactic` node, empty where the term ended, whose children are
/// an atom `-` and an atom `↑` as they stood, then the term.
pub open spec fn simp_item_matches(s: Syntax, it: SimpLemma, t: Seq<char>) -> bool {
    if !it.remove && !it.up {
        s == it.lemma
    } else {
        &&& s matches Syntax::Node(n) && {
            let cs = n.children@;
            let e = it.end;
            &&& n.kind == SyntaxKind::CustomTactic
            &&& n.range == range_at(t, e as nat, e as nat)
            &&& cs.len() == (if it.remove { 1int } else { 0 }) + (if it.up { 1int } else { 0 }) + 1
            &&& cs.last() == it.lemma
            &&& it.remove ==> is_tactic_atom(cs[0], t, e, e, "-"@)
            &&& it.up ==> is_tactic_atom(cs[if it.remove { 1int } else { 0 }], t, e, e, "↑"@)
        }
    }
}

/// The syntax `v` stands for the lemmas `items`, one by one.
pub open spec fn simp_items(v: Seq<Syntax>, items: Seq<SimpLemma>, t: Seq<char>) -> bool {
    &&& v.len() == items.len()
    &&& forall|n: int| 0 <= n < v.len() ==> #[trigger] simp_item_matches(v[n], items[n], t)
}

/// What `parse_simp_args` returns from `p`, given the calls of the term
/// parser (see `simp_args`).
pub open spec fn simp_args_result(
    p: Parser,
    q: Parser,
    r: ParserResult<(bool, Vec<Syntax>, Option<Syntax>)>,
    calls: Seq<TermCall>,
) -> bool {
    let t = p.text();
    &&& q.text() == t
    &&& match simp_args(t, p.offset() as int, calls) {
        SimpArgs::Parsed(only, items, config, e) => {
            &&& q.offset() == e
            &&& r matches Ok(x) && {
                &&& x.0 == only
                &&& simp_items(x.1@, items, t)
                &&& x.2 == config
            }
        },
        SimpArgs::TermError(e, o) => q.offset() == o && r == Err::<(bool, Vec<Syntax>, Option<Syntax>), Box<ParseError>>(e),
        SimpArgs::Expected(m, o) => q.offset() == o && (r matches Err(e) && is_expected(*e, m, pos_at(t, o as nat))),
        SimpArgs::Eof(o) => q.offset() == o && (r matches Err(e) && is_eof(*e, pos_at(t, o as nat))),
        SimpArgs::Stuck => false,
    }
}

/// The children of a simp tactic's node spanning from `i` to `e`: an atom
/// `only` spanning the node where `only` was given, the lemmas (see
/// `simp_item_matches`), and the configuration where one is kept.
pub open spec fn simp_children(
    cs: Seq<Syntax>,
    t: Seq<char>,
    i: int,
    e: int,
    only: bool,
    items: Seq<SimpLemma>,
    config: Option<Syntax>,
) -> bool {
    let o = if only { 1int } else { 0 };
    &&& cs.len() == o + items.len() + (if config is Some { 1int } else { 0 })
    &&& only ==> is_tactic_atom(cs[0], t, i, e, "only"@)
    &&& forall|n: int| 0 <= n < items.len() ==> #[trigger] simp_item_matches(cs[o + n], items[n], t)
    &&& config matches Some(c) ==> cs.last() == c
}

/// What a simp tactic `kw` returns from `p`, given the calls of the term
/// parser: the keyword, whitespace and comments, and its arguments (see
/// `simp_args`), which become the children of a `CustomTactic` node
/// spanning from the keyword; the configuration only where `keep_config`.
pub open spec fn simp_tactic_result(
    p: Parser,
    q: Parser,
    r: ParserResult<Syntax>,
    calls: Seq<TermCall>,
    kw: Seq<char>,
    keep_config: bool,
) -> bool {
    let t = p.text();
    let i = p.offset() as int;
    &&& q.text() == t
    &&& if !keyword_at(t, i, kw) {
        calls.len() == 0 && keyword_missing(p, q, r, kw)
    } else {
        match simp_args(t, trivia_end(t, i + kw.len()), calls) {
            SimpArgs::Parsed(only, items, config, e) => {
                &&& q.offset() == e
                &&& r matches Ok(s) && s matches Syntax::Node(x) && {
                    &&& x.kind == SyntaxKind::CustomTactic
                    &&& x.range == range_at(t, i as nat, e as nat)
                    &&& simp_children(x.children@, t, i, e, only, items, if keep_config { config } else { None })
                }
            },
            SimpArgs::TermError(e, o) => q.offset() == o && r == Err::<Syntax, Box<ParseError>>(e),
            SimpArgs::Expected(m, o) => q.offset() == o && (r matches Err(e) && is_expected(*e, m, pos_at(t, o as nat))),
            SimpArgs::Eof(o) => q.offset() == o && (r matches Err(e) && is_eof(*e, pos_at(t, o as nat))),
            SimpArgs::Stuck => false,
        }
    }
}

impl Parser {
    /// `linarith`: linear arithmetic, with an optional list of hypotheses
    /// read by `term` (see `linarith_result`; the calls are ones that
    /// `term` can make).
    pub fn linarith_tactic<F>(&mut self, term: F) -> (r: ParserResult<Syntax>) where
        F: Fn(&mut Parser) -> ParserResult<Syntax>,
        requires
            old(self).wf(),
            forall|q: &mut Parser| q.wf() ==> term.requires((q,)),
            forall|q: &mut Parser, x: ParserResult<Syntax>|
                term.ensures((q,), x) ==> {
                    &&& final(q).wf()
                    &&& final(q).text() == q.text()
                    &&& final(q).offset() >= q.offset()
                },
        ensures
            final(self).wf(),
            exists|calls: Seq<TermCall>|
                #![trigger linarith_result(*old(self), *final(self), r, calls)]
                {
                    &&& linarith_result(*old(self), *final(self), r, calls)
                    &&& forall|j: int|
                        #![trigger calls[j]]
                        0 <= j < calls.len() ==> exists|q: &mut Parser|
                            #![trigger term.ensures((q,), calls[j].result)]
                            {
                                &&& q.text() == old(self).text()
                                &&& q.offset() == calls[j].start
                                &&& final(q).offset() == calls[j].end
                                &&& term.ensures((q,), calls[j].result)
                            }
                },
    {
        proof {
            self.lemma_wf();
            reveal_strlit("linarith");
        }
        let ghost t = self.text();
        let ghost i = self.offset() as int;
        let start = self.position();
        match self.keyword("linarith") {
            Ok(()) => {},
            Err(e) => {
                proof {
                    assert(linarith_result(*old(self), *self, Err::<Syntax, Box<ParseError>>(e), Seq::empty()));
                }
                return Err(e);
            },
        }
        self.skip_whitespace();
        proof {
            lemma_trivia_end(t, i + 8);
            self.lemma_wf();
        }
        let ghost j = self.offset() as int;
        let mut hyps: Vec<Syntax> = Vec::new();
        let ghost mut calls: Seq<TermCall> = Seq::empty();
        if self.peek() == Some('[') {
            self.advance();
            self.skip_whitespace();
            proof {
                lemma_trivia_end(t, j + 1);
                self.lemma_wf();
                assert forall|rest: Seq<TermCall>| #[trigger] (calls + rest) == rest by {
                    assert(calls + rest =~= rest);
                }
            }
            let ghost k0 = self.offset() as int;
            while self.peek() != Some(']')
                invariant
                    self.wf(),
                    t == self.text(),
                    t == old(self).text(),
                    i == old(self).offset(),
                    keyword_at(t, i, "linarith"@),
                    j == trivia_end(t, i + 8),
                    j < t.len() && t[j] == '[',
                    k0 == trivia_end(t, j + 1),
                    k0 <= self.offset() <= t.len(),
                    trivia_end(t, self.offset() as int) == self.offset(),
                    start == pos_at(t, i as nat),
                    forall|q: &mut Parser| q.wf() ==> term.requires((q,)),
                    forall|q: &mut Parser, x: ParserResult<Syntax>|
                        term.ensures((q,), x) ==> {
                            &&& final(q).wf()
                            &&& final(q).text() == q.text()
                            &&& final(q).offset() >= q.offset()
                        },
                    forall|rest: Seq<TermCall>|
                        #![trigger term_list(t, k0, calls + rest, Seq::<Syntax>::empty())]
                        term_list(t, k0, calls + rest, Seq::<Syntax>::empty())
                            == term_list(t, self.offset() as int, rest, hyps@),
                    forall|jj: int|
                        #![trigger calls[jj]]
                        0 <= jj < calls.len() ==> exists|q: &mut Parser|
                            #![trigger term.ensures((q,), calls[jj].result)]
                            {
                                &&& q.text() == t
                                &&& q.offset() == calls[jj].start
                                &&& final(q).offset() == calls[jj].end
                                &&& term.ensures((q,), calls[jj].result)
                            },
                decreases t.len() - self.offset(),
            {
                proof { self.lemma_wf(); }
                let ghost k = self.offset() as int;
                let ghost h0 = hyps@;
                let res = term(self);
                proof { self.lemma_wf(); }
                let ghost call = TermCall { start: k, end: self.offset() as int, result: res };
                let x = match res {
                    Ok(x) => x,
                    Err(err) => {
                        proof {
                            assert(seq![call][0] == call);
                            assert(term_list(t, k0, calls + seq![call], Seq::<Syntax>::empty())
                                == term_list(t, k, seq![call], h0));
                            let all = calls.push(call);
                            assert(calls + seq![call] =~= all);
                            assert(linarith_result(*old(self), *self, Err::<Syntax, Box<ParseError>>(err), all));
                        }
                        return Err(err);
                    },
                };
                let ghost gx = x;
                hyps.push(x);
                self.skip_whitespace();
                proof {
                    lemma_trivia_end(t, call.end);
                    self.lemma_wf();
                }
                let ghost n = self.offset() as int;
                if self.peek() == Some(',') {
                    self.advance();
                    self.skip_whitespace();
                    proof {
                        lemma_trivia_end(t, n + 1);
                        crate::binder::lemma_trivia_idem(t, n + 1);
                    }
                } else if self.peek() != Some(']') {
                    let err = ParseError::expected(", or ]", self.position());
                    proof {
                        reveal_strlit(", or ]");
                        assert(seq![call][0] == call);
                        assert(term_list(t, k0, calls + seq![call], Seq::<Syntax>::empty())
                            == term_list(t, k, seq![call], h0));
                        let all = calls.push(call);
                        assert(calls + seq![call] =~= all);
                        assert(linarith_result(*old(self), *self, Err::<Syntax, Box<ParseError>>(err), all));
                    }
                    return Err(err);
                } else {
                    proof { crate::binder::lemma_trivia_idem(t, call.end); }
                }
                proof {
                    assert forall|rest: Seq<TermCall>|
                        #![trigger term_list(t, k0, calls.push(call) + rest, Seq::<Syntax>::empty())]
                        term_list(t, k0, calls.push(call) + rest, Seq::<Syntax>::empty())
                            == term_list(t, self.offset() as int, rest, hyps@) by {
                        assert(calls + (seq![call] + rest) =~= calls.push(call) + rest);
                        assert((seq![call] + rest)[0] == call);
                        assert((seq![call] + rest).drop_first() =~= rest);
                        assert(hyps@ == h0.push(gx));
                        if 0 <= n < t.len() && t[n] == ']' {
                            assert(term_list(t, self.offset() as int, rest, hyps@) == term_list(t, n, rest, hyps@));
                        }
                    }
                    calls = calls.push(call);
                }
            }
            proof {
                assert(calls + Seq::<TermCall>::empty() =~= calls);
            }
            match self.expect_char(']') {
                Ok(()) => {},
                Err(err) => {
                    proof { assert(false); }
                    return Err(err);
                },
            }
        }
        let range = self.input().range_from(start);
        let ghost items = hyps@;
        let node = self.create_node(SyntaxKind::CustomTactic, range, hyps);
        proof {
            assert(linarith_result(*old(self), *self, Ok::<Syntax, Box<ParseError>>(node), calls));
        }
        Ok(node)
    }

    /// The arguments of `simp_all` and `field_simp`: `only`, the lemmas and
    /// the configuration (see `simp_args_result`; the calls are ones that
    /// `term` can make). The configuration is tried from a saved position,
    /// which is restored where `(config :=` is not there.
    #[verifier::spinoff_prover]
    #[verifier::rlimit(60)]
    pub fn parse_simp_args<F>(&mut self, term: F) -> (r: ParserResult<(bool, Vec<Syntax>, Option<Syntax>)>) where
        F: Fn(&mut Parser) -> ParserResult<Syntax>,
        requires
            old(self).wf(),
            forall|q: &mut Parser| q.wf() ==> term.requires((q,)),
            forall|q: &mut Parser, x: ParserResult<Syntax>|
                term.ensures((q,), x) ==> {
                    &&& final(q).wf()
                    &&& final(q).text() == q.text()
                    &&& final(q).offset() >= q.offset()
                },
        ensures
            final(self).wf(),
            exists|calls: Seq<TermCall>|
                #![trigger simp_args_result(*old(self), *final(self), r, calls)]
                {
                    &&& simp_args_result(*old(self), *final(self), r, calls)
                    &&& forall|j: int|
                        #![trigger calls[j]]
                        0 <= j < calls.len() ==> exists|q: &mut Parser|
                            #![trigger term.ensures((q,), calls[j].result)]
                            {
                                &&& q.text() == old(self).text()
                                &&& q.offset() == calls[j].start
                                &&& final(q).offset() == calls[j].end
                                &&& term.ensures((q,), calls[j].result)
                            }
                },
    {
        proof {
            self.lemma_wf();
            reveal_strlit("only");
        }
        let ghost t = self.text();
        let ghost j = self.offset() as int;
        let mut only = false;
        if self.peek_keyword("only") {
            match self.keyword("only") {
                Ok(()) => {},
                Err(e) => {
                    proof { assert(false); }
                    return Err(e);
                },
            }
            only = true;
            self.skip_whitespace();
            proof { lemma_trivia_end(t, j + 4); }
        }
        proof { self.lemma_wf(); }
        let ghost j1 = self.offset() as int;
        assert(only == keyword_at(t, j, "only"@));
        assert(j1 == if only { trivia_end(t, j + 4) } else { j });
        let mut lemmas: Vec<Syntax> = Vec::new();
        let ghost mut items: Seq<SimpLemma> = Seq::empty();
        let ghost mut calls: Seq<TermCall> = Seq::empty();
        if self.peek() == Some('[') {
            self.advance();
            self.skip_whitespace();
            proof {
                lemma_trivia_end(t, j1 + 1);
                self.lemma_wf();
                assert forall|rest: Seq<TermCall>| #[trigger] (calls + rest) == rest by {
                    assert(calls + rest =~= rest);
                }
            }
            let ghost k0 = self.offset() as int;
            while self.peek() != Some(']')
                invariant
                    self.wf(),
                    t == self.text(),
                    t == old(self).text(),
                    j == old(self).offset(),
                    only == keyword_at(t, j, "only"@),
                    j1 == if only { trivia_end(t, j + 4) } else { j },
                    0 <= j1 < t.len() && t[j1] == '[',
                    k0 == trivia_end(t, j1 + 1),
                    k0 <= self.offset() <= t.len(),
                    trivia_end(t, self.offset() as int) == self.offset(),
                    simp_items(lemmas@, items, t),
                    forall|q: &mut Parser| q.wf() ==> term.requires((q,)),
                    forall|q: &mut Parser, x: ParserResult<Syntax>|
                        term.ensures((q,), x) ==> {
                            &&& final(q).wf()
                            &&& final(q).text() == q.text()
                            &&& final(q).offset() >= q.offset()
                        },
                    forall|rest: Seq<TermCall>|
                        #![trigger simp_lemmas(t, k0, calls + rest, Seq::<SimpLemma>::empty())]
                        simp_lemmas(t, k0, calls + rest, Seq::<SimpLemma>::empty())
                            == simp_lemmas(t, self.offset() as int, rest, items),
                    forall|jj: int|
                        #![trigger calls[jj]]
                        0 <= jj < calls.len() ==> exists|q: &mut Parser|
                            #![trigger term.ensures((q,), calls[jj].result)]
                            {
                                &&& q.text() == t
                                &&& q.offset() == calls[jj].start
                                &&& final(q).offset() == calls[jj].end
                                &&& term.ensures((q,), calls[jj].result)
                            },
                decreases t.len() - self.offset(),
            {
                proof { self.lemma_wf(); }
                let ghost k = self.offset() as int;
                let ghost items0 = items;
                let remove = if self.peek() == Some('-') {
                    self.advance();
                    true
                } else {
                    false
                };
                let up = if self.peek() == Some('↑') {
                    self.advance();
                    true
                } else {
                    false
                };
                let ghost b = self.offset() as int;
                self.skip_whitespace();
                proof {
                    self.lemma_wf();
                    lemma_trivia_end(t, b);
                }
                let ghost c = self.offset() as int;
                let res = term(self);
                proof { self.lemma_wf(); }
                let ghost call = TermCall { start: c, end: self.offset() as int, result: res };
                let x = match res {
                    Ok(x) => x,
                    Err(err) => {
                        proof {
                            assert(seq![call][0] == call);
                            assert(simp_lemmas(t, k0, calls + seq![call], Seq::<SimpLemma>::empty())
                                == simp_lemmas(t, k, seq![call], items0));
                            let all = calls.push(call);
                            assert(calls + seq![call] =~= all);
                            assert(simp_args_result(*old(self), *self, Err::<(bool, Vec<Syntax>, Option<Syntax>), Box<ParseError>>(err), all));
                        }
                        return Err(err);
                    },
                };
                let ghost gx = x;
                let ghost it = SimpLemma { remove: remove, up: up, lemma: gx, end: call.end };
                let node = if remove || up {
                    let start = self.position();
                    let range = self.input().range_from(start);
                    let mut children: Vec<Syntax> = Vec::new();
                    if remove {
                        let a = self.make_atom("-", start);
                        children.push(a);
                    }
                    if up {
                        let a = self.make_atom("↑", start);
                        children.push(a);
                    }
                    children.push(x);
                    proof {
                        reveal_strlit("-");
                        reveal_strlit("↑");
                    }
                    self.create_node(SyntaxKind::CustomTactic, range, children)
                } else {
                    x
                };
                proof { self.lemma_wf(); }
                assert(simp_item_matches(node, it, t));
                lemmas.push(node);
                proof {
                    items = items.push(it);
                    assert(lemmas@.last() == node);
                    assert forall|nn: int| 0 <= nn < lemmas@.len() implies #[trigger] simp_item_matches(lemmas@[nn], items[nn], t) by {
                        if nn < lemmas@.len() - 1 {
                            assert(simp_item_matches(lemmas@[nn], items0[nn], t));
                        }
                    }
                }
                self.skip_whitespace();
                proof {
                    lemma_trivia_end(t, call.end);
                    self.lemma_wf();
                }
                let ghost n = self.offset() as int;
                if self.peek() == Some(',') {
                    self.advance();
                    self.skip_whitespace();
                    proof {
                        lemma_trivia_end(t, n + 1);
                        crate::binder::lemma_trivia_idem(t, n + 1);
                    }
                } else if self.peek() != Some(']') {
                    let err = ParseError::expected(", or ]", self.position());
                    proof {
                        reveal_strlit(", or ]");
                        assert(seq![call][0] == call);
                        assert(simp_lemmas(t, k0, calls + seq![call], Seq::<SimpLemma>::empty())
                            == simp_lemmas(t, k, seq![call], items0));
                        let all = calls.push(call);
                        assert(calls + seq![call] =~= all);
                        assert(simp_args_result(*old(self), *self, Err::<(bool, Vec<Syntax>, Option<Syntax>), Box<ParseError>>(err), all));
                    }
                    return Err(err);
                } else {
                    proof { crate::binder::lemma_trivia_idem(t, call.end); }
                }
                proof {
                    assert forall|rest: Seq<TermCall>|
                        #![trigger simp_lemmas(t, k0, calls.push(call) + rest, Seq::<SimpLemma>::empty())]
                        simp_lemmas(t, k0, calls.push(call) + rest, Seq::<SimpLemma>::empty())
                            == simp_lemmas(t, self.offset() as int, rest, items) by {
                        assert(calls + (seq![call] + rest) =~= calls.push(call) + rest);
                        assert((seq![call] + rest)[0] == call);
                        assert((seq![call] + rest).drop_first() =~= rest);
                        if 0 <= n < t.len() && t[n] == ']' {
                            assert(simp_lemmas(t, self.offset() as int, rest, items) == LemmaList::Done(items, n, rest));
                        }
                    }
                    calls = calls.push(call);
                }
            }
            let ghost close = self.offset() as int;
            match self.expect_char(']') {
                Ok(()) => {},
                Err(err) => {
                    proof { assert(false); }
                    return Err(err);
                },
            }
            self.skip_whitespace();
            proof {
                lemma_trivia_end(t, close + 1);
                assert forall|rest: Seq<TermCall>|
                    #![trigger simp_args(t, j, calls + rest)]
                    simp_args(t, j, calls + rest) == with_config(only, items, config_part(t, self.offset() as int, rest)) by {
                    assert(simp_lemmas(t, k0, calls + rest, Seq::<SimpLemma>::empty()) == LemmaList::Done(items, close, rest));
                }
            }
        } else {
            proof {
                assert forall|rest: Seq<TermCall>|
                    #![trigger simp_args(t, j, calls + rest)]
                    simp_args(t, j, calls + rest) == with_config(only, items, config_part(t, self.offset() as int, rest)) by {
                    assert(calls + rest =~= rest);
                }
            }
        }
        proof { self.lemma_wf(); }
        let ghost m = self.offset() as int;
        assert(m <= t.len());
        let mut config: Option<Syntax> = None;
        let ghost mut ccalls: Seq<TermCall> = Seq::empty();
        if self.peek() == Some('(') {
            self.save_position();
            self.advance();
            self.skip_whitespace();
            proof {
                self.lemma_wf();
                lemma_trivia_end(t, m + 1);
                reveal_strlit("config");
            }
            let ghost a = self.offset() as int;
            if self.peek_keyword("config") {
                match self.keyword("config") {
                    Ok(()) => {},
                    Err(e) => {
                        proof { assert(false); }
                        return Err(e);
                    },
                }
                self.skip_whitespace();
                proof {
                    self.lemma_wf();
                    lemma_trivia_end(t, a + 6);
                }
                let ghost b = self.offset() as int;
                if self.peek() == Some(':') && self.peek_nth(1) == Some('=') {
                    self.advance();
                    self.advance();
                    self.skip_whitespace();
                    proof {
                        self.lemma_wf();
                        lemma_trivia_end(t, b + 2);
                    }
                    let ghost c = self.offset() as int;
                    let res = term(self);
                    proof { self.lemma_wf(); }
                    let ghost call = TermCall { start: c, end: self.offset() as int, result: res };
                    proof { ccalls = seq![call]; }
                    match res {
                        Ok(x) => {
                            config = Some(x);
                        },
                        Err(err) => {
                            proof {
                                assert(simp_args(t, j, calls + ccalls) == with_config(only, items, config_part(t, m, ccalls)));
                                assert(simp_args_result(*old(self), *self, Err::<(bool, Vec<Syntax>, Option<Syntax>), Box<ParseError>>(err), calls + ccalls));
                            }
                            return Err(err);
                        },
                    }
                    self.skip_whitespace();
                    proof {
                        lemma_trivia_end(t, call.end);
                        self.lemma_wf();
                    }
                    let ghost d = self.offset() as int;
                    match self.expect_char(')') {
                        Ok(()) => {},
                        Err(err) => {
                            proof {
                                assert(simp_args(t, j, calls + ccalls) == with_config(only, items, config_part(t, m, ccalls)));
                                assert(simp_args_result(*old(self), *self, Err::<(bool, Vec<Syntax>, Option<Syntax>), Box<ParseError>>(err), calls + ccalls));
                            }
                            return Err(err);
                        },
                    }
                    self.commit_position();
                } else {
                    self.restore_position();
                }
            } else {
                self.restore_position();
            }
        }
        let r = Ok((only, lemmas, config));
        proof {
            assert(simp_args(t, j, calls + ccalls) == with_config(only, items, config_part(t, m, ccalls)));
            assert(simp_args_result(*old(self), *self, r, calls + ccalls));
        }
        r
    }

    /// A simp tactic `kw` (see `simp_tactic_result`).
    fn simp_tactic<F>(&mut self, kw: &str, keep_config: bool, term: F) -> (r: ParserResult<Syntax>) where
        F: Fn(&mut Parser) -> ParserResult<Syntax>,
        requires
            old(self).wf(),
            forall|q: &mut Parser| q.wf() ==> term.requires((q,)),
            forall|q: &mut Parser, x: ParserResult<Syntax>|
                term.ensures((q,), x) ==> {
                    &&& final(q).wf()
                    &&& final(q).text() == q.text()
                    &&& final(q).offset() >= q.offset()
                },
        ensures
            final(self).wf(),
            exists|calls: Seq<TermCall>|
                #![trigger simp_tactic_result(*old(self), *final(self), r, calls, kw@, keep_config)]
                {
                    &&& simp_tactic_result(*old(self), *final(self), r, calls, kw@, keep_config)
                    &&& forall|j: int|
                        #![trigger calls[j]]
                        0 <= j < calls.len() ==> exists|q: &mut Parser|
                            #![trigger term.ensures((q,), calls[j].result)]
                            {
                                &&& q.text() == old(self).text()
                                &&& q.offset() == calls[j].start
                                &&& final(q).offset() == calls[j].end
                                &&& term.ensures((q,), calls[j].result)
                            }
                },
    {
        proof { self.lemma_wf(); }
        let ghost t = self.text();
        let ghost i = self.offset() as int;
        let start = self.position();
        match self.keyword(kw) {
            Ok(()) => {},
            Err(e) => {
                proof {
                    assert(simp_tactic_result(*old(self), *self, Err::<Syntax, Box<ParseError>>(e), Seq::empty(), kw@, keep_config));
                }
                return Err(e);
            },
        }
        self.skip_whitespace();
        proof { self.lemma_wf(); }
        let ghost p1 = *self;
        let args = self.parse_simp_args(term);
        let ghost calls = choose|calls: Seq<TermCall>|
            {
                &&& simp_args_result(p1, *self, args, calls)
                &&& forall|j: int|
                    #![trigger calls[j]]
                    0 <= j < calls.len() ==> exists|q: &mut Parser|
                        #![trigger term.ensures((q,), calls[j].result)]
                        {
                            &&& q.text() == p1.text()
                            &&& q.offset() == calls[j].start
                            &&& final(q).offset() == calls[j].end
                            &&& term.ensures((q,), calls[j].result)
                        }
            };
        proof { self.lemma_wf(); }
        let (only, mut lemmas, config) = match args {
            Ok(a) => a,
            Err(e) => {
                proof {
                    assert(simp_tactic_result(*old(self), *self, Err::<Syntax, Box<ParseError>>(e), calls, kw@, keep_config));
                }
                return Err(e);
            },
        };
        let ghost e = self.offset() as int;
        let ghost v = lemmas@;
        let ghost items = match simp_args(t, p1.offset() as int, calls) {
            SimpArgs::Parsed(_, items, _, _) => items,
            _ => Seq::empty(),
        };
        let range = self.input().range_from(start);
        let mut children: Vec<Syntax> = Vec::new();
        if only {
            let a = self.make_atom("only", start);
            children.push(a);
        }
        let ghost o: int = if only { 1 } else { 0 };
        children.append(&mut lemmas);
        let ghost kept = if keep_config { config } else { None };
        if keep_config {
            match config {
                Some(c) => {
                    children.push(c);
                },
                None => {},
            }
        }
        proof {
            reveal_strlit("only");
            assert forall|n: int| 0 <= n < items.len() implies #[trigger] simp_item_matches(children@[o + n], items[n], t) by {
                assert(children@[o + n] == v[n]);
                assert(simp_item_matches(v[n], items[n], t));
            }
        }
        let node = self.create_node(SyntaxKind::CustomTactic, range, children);
        proof {
            assert(simp_tactic_result(*old(self), *self, Ok::<Syntax, Box<ParseError>>(node), calls, kw@, keep_config));
        }
        Ok(node)
    }

    /// `simp_all`, with the arguments of simp: `only`, a list of lemmas
    /// and a configuration, all read by `term` where they hold terms (see
    /// `simp_tactic_result`).
    pub fn simp_all_tactic<F>(&mut self, term: F) -> (r: ParserResult<Syntax>) where
        F: Fn(&mut Parser) -> ParserResult<Syntax>,
        requires
            old(self).wf(),
            forall|q: &mut Parser| q.wf() ==> term.requires((q,)),
            forall|q: &mut Parser, x: ParserResult<Syntax>|
                term.ensures((q,), x) ==> {
                    &&& final(q).wf()
                    &&& final(q).text() == q.text()
                    &&& final(q).offset() >= q.offset()
                },
        ensures
            final(self).wf(),
            exists|calls: Seq<TermCall>|
                #![trigger simp_tactic_result(*old(self), *final(self), r, calls, "simp_all"@, true)]
                {
                    &&& simp_tactic_result(*old(self), *final(self), r, calls, "simp_all"@, true)
                    &&& forall|j: int|
                        #![trigger calls[j]]
                        0 <= j < calls.len() ==> exists|q: &mut Parser|
                            #![trigger term.ensures((q,), calls[j].result)]
                            {
                                &&& q.text() == old(self).text()
                                &&& q.offset() == calls[j].start
                                &&& final(q).offset() == calls[j].end
                                &&& term.ensures((q,), calls[j].result)
                            }
                },
    {
        self.simp_tactic("simp_all", true, term)
    }

    /// `field_simp`, with the arguments of simp; the configuration is read
    /// but not kept (see `simp_tactic_result`).
    pub fn field_simp_tactic<F>(&mut self, term: F) -> (r: ParserResult<Syntax>) where
        F: Fn(&mut Parser) -> ParserResult<Syntax>,
        requires
            old(self).wf(),
            forall|q: &mut Parser| q.wf() ==> term.requires((q,)),
            forall|q: &mut Parser, x: ParserResult<Syntax>|
                term.ensures((q,), x) ==> {
                    &&& final(q).wf()
                    &&& final(q).text() == q.text()
                    &&& final(q).offset() >= q.offset()
                },
        ensures
            final(self).wf(),
            exists|calls: Seq<TermCall>|
                #![trigger simp_tactic_result(*old(self), *final(self), r, calls, "field_simp"@, false)]
                {
                    &&& simp_tactic_result(*old(self), *final(self), r, calls, "field_simp"@, false)
                    &&& forall|j: int|
                        #![trigger calls[j]]
                        0 <= j < calls.len() ==> exists|q: &mut Parser|
                            #![trigger term.ensures((q,), calls[j].result)]
                            {
                                &&& q.text() == old(self).text()
                                &&& q.offset() == calls[j].start
                                &&& final(q).offset() == calls[j].end
                                &&& term.ensures((q,), calls[j].result)
                            }
                },
    {
        self.simp_tactic("field_simp", false, term)
    }
}

} // verus!
