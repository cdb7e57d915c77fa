//! Patterns of `match` arms: wildcards, literals, lists and parenthesized
//! patterns. A pattern parser given by the caller reads the patterns
//! inside lists and parentheses.
use vstd::prelude::*;
use crate::error::{ParseError, ParserResult, is_expected};
use crate::interpolation::TermCall;
use crate::lexical::is_digit;
use crate::literals::{char_result, expect_error, number_result, string_result};
use crate::parser::Parser;
use crate::scan::{lemma_trivia_end, trivia_end};
use crate::syntax::{pos_at, range_at, Syntax, SyntaxKind};
use crate::terms::text_ahead;

verus! {

/// What `literal_pattern` returns from `p`: a number, a string literal or
/// a character literal, chosen by the next character; anything else is
/// no literal pattern.
pub open spec fn literal_pattern_result(p: Parser, q: Parser, r: ParserResult<Syntax>) -> bool {
    match p.next_char() {
        Some(c) => if '0' <= c <= '9' {
            number_result(p, q, r)
        } else if c == '"' {
            string_result(p, q, r)
        } else if c == '\'' {
            char_result(p, q, r)
        } else {
            &&& q == p
            &&& r matches Err(e) && is_expected(*e, "literal pattern"@, p.pos())
        },
        None => {
            &&& q == p
            &&& r matches Err(e) && is_expected(*e, "literal pattern"@, p.pos())
        },
    }
}

/// How reading a list of patterns ends.
pub ghost enum PatEnd {
    /// With these patterns, the closing character at the index given.
    Done(Seq<Syntax>, int),
    /// With the error the pattern parser gave; the cursor where it left it.
    PatError(Box<ParseError>, int),
    /// With an error saying what was expected at the index given.
    Expected(Seq<char>, int),
    /// The calls do not fit the text.
    Stuck,
}

/// The patterns of a list from `k`, `k` standing after `[` or `,` and
/// after whitespace and comments: a pattern read by the next call,
/// whitespace and comments, then `,` (whitespace and comments, and the
/// next pattern) or `]`; anything else is an error.
pub open spec fn pattern_list(t: Seq<char>, k: int, calls: Seq<TermCall>, items: Seq<Syntax>) -> PatEnd
    decreases t.len() - k,
{
    if calls.len() == 0 || calls[0].start != k {
        PatEnd::Stuck
    } else {
        match calls[0].result {
            Err(e) => if calls.len() == 1 {
                PatEnd::PatError(e, calls[0].end)
            } else {
                PatEnd::Stuck
            },
            Ok(x) => {
                let n = trivia_end(t, calls[0].end);
                if 0 <= n < t.len() && t[n] == ',' {
                    let k2 = trivia_end(t, n + 1);
                    if k < k2 <= t.len() {
                        pattern_list(t, k2, calls.drop_first(), items.push(x))
                    } else {
                        PatEnd::Stuck
                    }
                } else if calls.len() != 1 {
                    PatEnd::Stuck
                } else if 0 <= n < t.len() && t[n] == ']' {
                    PatEnd::Done(items.push(x), n)
                } else {
                    PatEnd::Expected(", or ]"@, n)
                }
            },
        }
    }
}

/// Reading goes on from `k` with `rest`, or has closed at `k`.
pub open spec fn list_from(t: Seq<char>, k: int, rest: Seq<TermCall>, items: Seq<Syntax>, done: bool) -> PatEnd {
    if done {
        if rest.len() == 0 {
            PatEnd::Done(items, k)
        } else {
            PatEnd::Stuck
        }
    } else {
        pattern_list(t, k, rest, items)
    }
}

/// `q` and `r` end reading patterns as `e` says; `ok` holds of the node
/// made of them, which spans from `i` to after the closing character.
pub open spec fn pat_end_result(
    t: Seq<char>,
    i: int,
    q: Parser,
    r: ParserResult<Syntax>,
    e: PatEnd,
    kind: SyntaxKind,
) -> bool {
    match e {
        PatEnd::Done(items, n) => {
            &&& q.offset() == n + 1
            &&& r matches Ok(s) && s matches Syntax::Node(x) && {
                &&& x.kind == kind
                &&& x.range == range_at(t, i as nat, (n + 1) as nat)
                &&& x.children@ == items
            }
        },
        PatEnd::PatError(err, o) => q.offset() == o && r == Err::<Syntax, Box<ParseError>>(err),
        PatEnd::Expected(m, o) => q.offset() == o && (r matches Err(err) && is_expected(*err, m, pos_at(t, o as nat))),
        PatEnd::Stuck => false,
    }
}

/// What `list_pattern` returns from `p`, given the calls of the pattern
/// parser: `[`, whitespace and comments, then `]` (a `ConstructorPattern`
/// node whose one child is an atom `[]` spanning the brackets) or the
/// patterns (see `pattern_list`), which become the children of a
/// `ConstructorPattern` node.
pub open spec fn list_pattern_result(p: Parser, q: Parser, r: ParserResult<Syntax>, calls: Seq<TermCall>) -> bool {
    let t = p.text();
    let i = p.offset() as int;
    let k0 = trivia_end(t, i + 1);
    &&& q.text() == t
    &&& if !(i < t.len() && t[i] == '[') {
        &&& calls.len() == 0
        &&& q.offset() == i
        &&& r matches Err(e) && expect_error(*e, t, i, '[')
    } else if k0 < t.len() && t[k0] == ']' {
        &&& calls.len() == 0
        &&& q.offset() == k0 + 1
        &&& r matches Ok(s) && s matches Syntax::Node(x) && {
            &&& x.kind == SyntaxKind::ConstructorPattern
            &&& x.range == range_at(t, i as nat, (k0 + 1) as nat)
            &&& x.children@.len() == 1
            &&& x.children@[0] matches Syntax::Atom(a) && a.value@ == "[]"@ && a.range == x.range
        }
    } else {
        pat_end_result(t, i, q, r, pattern_list(t, k0, calls, Seq::empty()), SyntaxKind::ConstructorPattern)
    }
}

/// The rest of a tuple pattern from `n`, which stands after whitespace and
/// comments: while `,` stands there, whitespace and comments, then a `)`
/// (a trailing comma) ends it, or a pattern read by the next call and more
/// whitespace and comments. `Done` gives where the `)` is expected.
pub open spec fn tuple_rest(t: Seq<char>, n: int, calls: Seq<TermCall>, items: Seq<Syntax>) -> PatEnd
    decreases t.len() - n,
{
    if !(0 <= n < t.len() && t[n] == ',') {
        if calls.len() == 0 {
            PatEnd::Done(items, n)
        } else {
            PatEnd::Stuck
        }
    } else {
        let m = trivia_end(t, n + 1);
        if 0 <= m < t.len() && t[m] == ')' {
            if calls.len() == 0 {
                PatEnd::Done(items, m)
            } else {
                PatEnd::Stuck
            }
        } else if calls.len() == 0 || calls[0].start != m {
            PatEnd::Stuck
        } else {
            match calls[0].result {
                Err(e) => if calls.len() == 1 {
                    PatEnd::PatError(e, calls[0].end)
                } else {
                    PatEnd::Stuck
                },
                Ok(x) => {
                    let n2 = trivia_end(t, calls[0].end);
                    if n < n2 <= t.len() {
                        tuple_rest(t, n2, calls.drop_first(), items.push(x))
                    } else {
                        PatEnd::Stuck
                    }
                },
            }
        }
    }
}

/// `q` and `r` end a parenthesized pattern where `)` is expected at `c`:
/// with `ok` after it, else with the error of `expect_char(')')`.
pub open spec fn close_paren(t: Seq<char>, c: int, q: Parser, r: ParserResult<Syntax>, ok: bool) -> bool {
    if 0 <= c < t.len() && t[c] == ')' {
        q.offset() == c + 1 && ok
    } else {
        q.offset() == c && (r matches Err(e) && expect_error(*e, t, c, ')'))
    }
}

/// What `paren_pattern` returns from `p`, given the calls of the pattern
/// parser: `(`, whitespace and comments, then `)` (the unit pattern: a
/// `ConstructorPattern` node holding an `App` node of the atoms `Unit` and
/// `unit`, all spanning the parentheses), or a pattern and whitespace and
/// comments; then, if `,` follows, the rest of a tuple (see `tuple_rest`)
/// and `)`, which make a `TuplePattern` node of the patterns; otherwise
/// `)`, and the result is the pattern itself.
pub open spec fn paren_pattern_result(p: Parser, q: Parser, r: ParserResult<Syntax>, calls: Seq<TermCall>) -> bool {
    let t = p.text();
    let i = p.offset() as int;
    let k0 = trivia_end(t, i + 1);
    &&& q.text() == t
    &&& if !(i < t.len() && t[i] == '(') {
        &&& calls.len() == 0
        &&& q.offset() == i
        &&& r matches Err(e) && expect_error(*e, t, i, '(')
    } else if k0 < t.len() && t[k0] == ')' {
        let range = range_at(t, i as nat, (k0 + 1) as nat);
        &&& calls.len() == 0
        &&& q.offset() == k0 + 1
        &&& r matches Ok(s) && s matches Syntax::Node(x) && {
            &&& x.kind == SyntaxKind::ConstructorPattern
            &&& x.range == range
            &&& x.children@.len() == 1
            &&& x.children@[0] matches Syntax::Node(u) && {
                &&& u.kind == SyntaxKind::App
                &&& u.range == range
                &&& u.children@.len() == 2
                &&& u.children@[0] matches Syntax::Atom(a) && a.value@ == "Unit"@ && a.range == range
                &&& u.children@[1] matches Syntax::Atom(b) && b.value@ == "unit"@ && b.range == range
            }
        }
    } else if calls.len() == 0 || calls[0].start != k0 {
        false
    } else {
        match calls[0].result {
            Err(e) => calls.len() == 1 && q.offset() == calls[0].end && r == Err::<Syntax, Box<ParseError>>(e),
            Ok(first) => {
                let n = trivia_end(t, calls[0].end);
                if 0 <= n < t.len() && t[n] == ',' {
                    match tuple_rest(t, n, calls.drop_first(), seq![first]) {
                        PatEnd::Done(items, c) => close_paren(
                            t,
                            c,
                            q,
                            r,
                            r matches Ok(s) && s matches Syntax::Node(x) && {
                                &&& x.kind == SyntaxKind::TuplePattern
                                &&& x.range == range_at(t, i as nat, (c + 1) as nat)
                                &&& x.children@ == items
                            },
                        ),
                        PatEnd::PatError(e, o) => q.offset() == o && r == Err::<Syntax, Box<ParseError>>(e),
                        _ => false,
                    }
                } else {
                    calls.len() == 1 && close_paren(t, n, q, r, r == Ok::<Syntax, Box<ParseError>>(first))
                }
            },
        }
    }
}

impl Parser {
    /// The next `n` characters, fewer where the text ends first (see
    /// `peek_chars`).
    pub fn peek_chars_pattern(&self, n: usize) -> (s: String)
        requires
            self.wf(),
        ensures
            s@ == text_ahead(self.text(), self.offset() as int, n as int),
    {
        self.peek_chars(n)
    }

    /// The wildcard pattern `_`: a `WildcardPattern` node without
    /// children that spans it.
    pub fn wildcard_pattern(&mut self) -> (r: ParserResult<Syntax>)
        requires
            old(self).wf(),
        ensures
            final(self).wf(),
            old(self).next_char() == Some('_') ==> {
                &&& final(self).offset() == old(self).offset() + 1
                &&& r matches Ok(s) && s matches Syntax::Node(n) && {
                    &&& n.kind == SyntaxKind::WildcardPattern
                    &&& n.range == range_at(old(self).text(), old(self).offset(), old(self).offset() + 1)
                    &&& n.children@.len() == 0
                }
            },
            old(self).next_char() != Some('_') ==> {
                &&& final(self).offset() == old(self).offset()
                &&& r matches Err(e) && expect_error(*e, old(self).text(), old(self).offset() as int, '_')
            },
    {
        let start = self.position();
        match self.expect_char('_') {
            Ok(()) => {},
            Err(e) => {
                return Err(e);
            },
        }
        let range = self.input().range_from(start);
        Ok(self.create_node(SyntaxKind::WildcardPattern, range, Vec::new()))
    }

    /// A literal pattern (see `literal_pattern_result`).
    pub fn literal_pattern(&mut self) -> (r: ParserResult<Syntax>)
        requires
            old(self).wf(),
        ensures
            final(self).wf(),
            literal_pattern_result(*old(self), *final(self), r),
    {
        proof { reveal_strlit("literal pattern"); }
        match self.peek() {
            Some(c) => {
                if is_digit(c) {
                    self.number()
                } else if c == '"' {
                    self.string_literal()
                } else if c == '\'' {
                    self.char_literal()
                } else {
                    Err(ParseError::expected("literal pattern", self.position()))
                }
            },
            None => Err(ParseError::expected("literal pattern", self.position())),
        }
    }

    /// A list pattern `[p₁, p₂]` or `[]` (see `list_pattern_result`; the
    /// calls are ones that `pattern` can make).
    pub fn list_pattern<F>(&mut self, pattern: F) -> (r: ParserResult<Syntax>) where
        F: Fn(&mut Parser) -> ParserResult<Syntax>,
        requires
            old(self).wf(),
            forall|q: &mut Parser| q.wf() ==> pattern.requires((q,)),
            forall|q: &mut Parser, x: ParserResult<Syntax>|
                pattern.ensures((q,), x) ==> {
                    &&& final(q).wf()
                    &&& final(q).text() == q.text()
                    &&& final(q).offset() >= q.offset()
                },
        ensures
            final(self).wf(),
            exists|calls: Seq<TermCall>|
                #![trigger list_pattern_result(*old(self), *final(self), r, calls)]
                {
                    &&& list_pattern_result(*old(self), *final(self), r, calls)
                    &&& forall|j: int|
                        #![trigger calls[j]]
                        0 <= j < calls.len() ==> exists|q: &mut Parser|
                            #![trigger pattern.ensures((q,), calls[j].result)]
                            {
                                &&& q.text() == old(self).text()
                                &&& q.offset() == calls[j].start
                                &&& final(q).offset() == calls[j].end
                                &&& pattern.ensures((q,), calls[j].result)
                            }
                },
    {
        proof { self.lemma_wf(); }
        let ghost t = self.text();
        let ghost i = self.offset() as int;
        let ghost none: Seq<TermCall> = Seq::empty();
        let start = self.position();
        match self.expect_char('[') {
            Ok(()) => {},
            Err(e) => {
                proof { assert(list_pattern_result(*old(self), *self, Err::<Syntax, Box<ParseError>>(e), none)); }
                return Err(e);
            },
        }
        self.skip_whitespace();
        proof {
            lemma_trivia_end(t, i + 1);
            self.lemma_wf();
        }
        let ghost k0 = self.offset() as int;
        if self.peek() == Some(']') {
            self.advance();
            let range = self.input().range_from(start);
            let atom = self.create_atom(range, String::from_str("[]"));
            let mut children: Vec<Syntax> = Vec::new();
            children.push(atom);
            let node = self.create_node(SyntaxKind::ConstructorPattern, range, children);
            proof {
                reveal_strlit("[]");
                assert(list_pattern_result(*old(self), *self, Ok::<Syntax, Box<ParseError>>(node), none));
            }
            return Ok(node);
        }
        let mut elements: Vec<Syntax> = Vec::new();
        let ghost mut calls: Seq<TermCall> = Seq::empty();
        let mut done = false;
        proof {
            assert forall|rest: Seq<TermCall>| #[trigger] (calls + rest) == rest by {
                assert(calls + rest =~= rest);
            }
        }
        while !done
            invariant
                self.wf(),
                t == self.text(),
                t == old(self).text(),
                i == old(self).offset(),
                start == pos_at(t, i as nat),
                i < t.len() && t[i] == '[',
                k0 == trivia_end(t, i + 1),
                !(k0 < t.len() && t[k0] == ']'),
                k0 <= self.offset() <= t.len(),
                !done ==> trivia_end(t, self.offset() as int) == self.offset(),
                done ==> self.offset() < t.len() && t[self.offset() as int] == ']',
                forall|q: &mut Parser| q.wf() ==> pattern.requires((q,)),
                forall|q: &mut Parser, x: ParserResult<Syntax>|
                    pattern.ensures((q,), x) ==> {
                        &&& final(q).wf()
                        &&& final(q).text() == q.text()
                        &&& final(q).offset() >= q.offset()
                    },
                forall|rest: Seq<TermCall>|
                    #![trigger pattern_list(t, k0, calls + rest, Seq::<Syntax>::empty())]
                    pattern_list(t, k0, calls + rest, Seq::<Syntax>::empty())
                        == list_from(t, self.offset() as int, rest, elements@, done),
                forall|jj: int|
                    #![trigger calls[jj]]
                    0 <= jj < calls.len() ==> exists|q: &mut Parser|
                        #![trigger pattern.ensures((q,), calls[jj].result)]
                        {
                            &&& q.text() == t
                            &&& q.offset() == calls[jj].start
                            &&& final(q).offset() == calls[jj].end
                            &&& pattern.ensures((q,), calls[jj].result)
                        },
            decreases t.len() - self.offset(), if done { 0int } else { 1int },
        {
            proof { self.lemma_wf(); }
            let ghost k = self.offset() as int;
            let ghost h0 = elements@;
            let res = pattern(self);
            proof { self.lemma_wf(); }
            let ghost call = TermCall { start: k, end: self.offset() as int, result: res };
            proof {
                assert forall|rest: Seq<TermCall>| #[trigger] (calls.push(call) + rest) == calls + (seq![call] + rest) by {
                    assert(calls.push(call) + rest =~= calls + (seq![call] + rest));
                }
                assert forall|rest: Seq<TermCall>| #[trigger] (seq![call] + rest).drop_first() == rest by {
                    assert((seq![call] + rest).drop_first() =~= rest);
                }
                assert forall|rest: Seq<TermCall>| #[trigger] (seq![call] + rest)[0] == call by {}
                assert(seq![call].len() == 1);
            }
            let x = match res {
                Ok(x) => x,
                Err(err) => {
                    proof {
                        assert(calls + seq![call] == calls.push(call));
                        assert(pattern_list(t, k0, calls.push(call), Seq::<Syntax>::empty()) == PatEnd::PatError(err, call.end));
                        assert(list_pattern_result(*old(self), *self, Err::<Syntax, Box<ParseError>>(err), calls.push(call)));
                    }
                    return Err(err);
                },
            };
            elements.push(x);
            self.skip_whitespace();
            proof {
                lemma_trivia_end(t, call.end);
                self.lemma_wf();
            }
            let ghost n = self.offset() as int;
            if self.peek() == Some(',') {
                self.advance();
                self.skip_whitespace();
                proof {
                    lemma_trivia_end(t, n + 1);
                    crate::binder::lemma_trivia_idem(t, n + 1);
                }
            } else if self.peek() == Some(']') {
                done = true;
            } else {
                let err = ParseError::expected(", or ]", self.position());
                proof {
                    reveal_strlit(", or ]");
                    assert(calls + seq![call] == calls.push(call));
                    assert(pattern_list(t, k0, calls.push(call), Seq::<Syntax>::empty()) == PatEnd::Expected(", or ]"@, n));
                    assert(list_pattern_result(*old(self), *self, Err::<Syntax, Box<ParseError>>(err), calls.push(call)));
                }
                return Err(err);
            }
            proof { calls = calls.push(call); }
        }
        match self.expect_char(']') {
            Ok(()) => {},
            Err(err) => {
                proof { assert(false); }
                return Err(err);
            },
        }
        let range = self.input().range_from(start);
        let node = self.create_node(SyntaxKind::ConstructorPattern, range, elements);
        proof {
            assert(calls + none =~= calls);
            assert(list_pattern_result(*old(self), *self, Ok::<Syntax, Box<ParseError>>(node), calls));
        }
        Ok(node)
    }

    /// A parenthesized pattern `(p)`, a tuple pattern `(p₁, p₂)` or the
    /// unit pattern `()` (see `paren_pattern_result`; the calls are ones
    /// that `pattern` can make).
    #[verifier::spinoff_prover]
    #[verifier::rlimit(60)]
    pub fn paren_pattern<F>(&mut self, pattern: F) -> (r: ParserResult<Syntax>) where
        F: Fn(&mut Parser) -> ParserResult<Syntax>,
        requires
            old(self).wf(),
            forall|q: &mut Parser| q.wf() ==> pattern.requires((q,)),
            forall|q: &mut Parser, x: ParserResult<Syntax>|
                pattern.ensures((q,), x) ==> {
                    &&& final(q).wf()
                    &&& final(q).text() == q.text()
                    &&& final(q).offset() >= q.offset()
                },
        ensures
            final(self).wf(),
            exists|calls: Seq<TermCall>|
                #![trigger paren_pattern_result(*old(self), *final(self), r, calls)]
                {
                    &&& paren_pattern_result(*old(self), *final(self), r, calls)
                    &&& forall|j: int|
                        #![trigger calls[j]]
                        0 <= j < calls.len() ==> exists|q: &mut Parser|
                            #![trigger pattern.ensures((q,), calls[j].result)]
                            {
                                &&& q.text() == old(self).text()
                                &&& q.offset() == calls[j].start
                                &&& final(q).offset() == calls[j].end
                                &&& pattern.ensures((q,), calls[j].result)
                            }
                },
    {
        proof { self.lemma_wf(); }
        let ghost t = self.text();
        let ghost i = self.offset() as int;
        let ghost none: Seq<TermCall> = Seq::empty();
        let start = self.position();
        match self.expect_char('(') {
            Ok(()) => {},
            Err(e) => {
                proof { assert(paren_pattern_result(*old(self), *self, Err::<Syntax, Box<ParseError>>(e), none)); }
                return Err(e);
            },
        }
        self.skip_whitespace();
        proof {
            lemma_trivia_end(t, i + 1);
            self.lemma_wf();
        }
        let ghost k0 = self.offset() as int;
        if self.peek() == Some(')') {
            self.advance();
            let range = self.input().range_from(start);
            let unit_atom = self.create_atom(range, String::from_str("Unit"));
            let unit_atom2 = self.create_atom(range, String::from_str("unit"));
            let mut parts: Vec<Syntax> = Vec::new();
            parts.push(unit_atom);
            parts.push(unit_atom2);
            let unit_app = self.create_node(SyntaxKind::App, range, parts);
            let mut children: Vec<Syntax> = Vec::new();
            children.push(unit_app);
            let node = self.create_node(SyntaxKind::ConstructorPattern, range, children);
            proof {
                reveal_strlit("Unit");
                reveal_strlit("unit");
                assert(paren_pattern_result(*old(self), *self, Ok::<Syntax, Box<ParseError>>(node), none));
            }
            return Ok(node);
        }
        let res = pattern(self);
        proof { self.lemma_wf(); }
        let ghost first_call = TermCall { start: k0, end: self.offset() as int, result: res };
        let first = match res {
            Ok(x) => x,
            Err(e) => {
                proof { assert(paren_pattern_result(*old(self), *self, Err::<Syntax, Box<ParseError>>(e), seq![first_call])); }
                return Err(e);
            },
        };
        let ghost gfirst = first;
        self.skip_whitespace();
        proof {
            lemma_trivia_end(t, first_call.end);
            self.lemma_wf();
        }
        let ghost n0 = self.offset() as int;
        if self.peek() != Some(',') {
            match self.expect_char(')') {
                Ok(()) => {},
                Err(e) => {
                    proof { assert(paren_pattern_result(*old(self), *self, Err::<Syntax, Box<ParseError>>(e), seq![first_call])); }
                    return Err(e);
                },
            }
            proof { assert(paren_pattern_result(*old(self), *self, Ok::<Syntax, Box<ParseError>>(first), seq![first_call])); }
            return Ok(first);
        }
        let mut elements: Vec<Syntax> = Vec::new();
        elements.push(first);
        let ghost mut calls: Seq<TermCall> = Seq::empty();
        proof {
            assert(elements@ == seq![gfirst]);
            assert forall|rest: Seq<TermCall>| #[trigger] (calls + rest) == rest by {
                assert(calls + rest =~= rest);
            }
        }
        while self.peek() == Some(',')
            invariant
                self.wf(),
                t == self.text(),
                t == old(self).text(),
                i == old(self).offset(),
                start == pos_at(t, i as nat),
                i < t.len() && t[i] == '(',
                k0 == trivia_end(t, i + 1),
                !(k0 < t.len() && t[k0] == ')'),
                first_call.start == k0,
                first_call.result == Ok::<Syntax, Box<ParseError>>(gfirst),
                n0 == trivia_end(t, first_call.end),
                n0 < t.len() && t[n0] == ',',
                n0 <= self.offset() <= t.len(),
                trivia_end(t, self.offset() as int) == self.offset(),
                forall|q: &mut Parser| q.wf() ==> pattern.requires((q,)),
                forall|q: &mut Parser, x: ParserResult<Syntax>|
                    pattern.ensures((q,), x) ==> {
                        &&& final(q).wf()
                        &&& final(q).text() == q.text()
                        &&& final(q).offset() >= q.offset()
                    },
                forall|rest: Seq<TermCall>|
                    #![trigger tuple_rest(t, n0, calls + rest, seq![gfirst])]
                    tuple_rest(t, n0, calls + rest, seq![gfirst]) == tuple_rest(t, self.offset() as int, rest, elements@),
                exists|q: &mut Parser|
                    #![trigger pattern.ensures((q,), first_call.result)]
                    {
                        &&& q.text() == t
                        &&& q.offset() == first_call.start
                        &&& final(q).offset() == first_call.end
                        &&& pattern.ensures((q,), first_call.result)
                    },
                forall|jj: int|
                    #![trigger calls[jj]]
                    0 <= jj < calls.len() ==> exists|q: &mut Parser|
                        #![trigger pattern.ensures((q,), calls[jj].result)]
                        {
                            &&& q.text() == t
                            &&& q.offset() == calls[jj].start
                            &&& final(q).offset() == calls[jj].end
                            &&& pattern.ensures((q,), calls[jj].result)
                        },
            decreases t.len() - self.offset(),
        {
            proof { self.lemma_wf(); }
            let ghost n = self.offset() as int;
            let ghost h0 = elements@;
            self.advance();
            self.skip_whitespace();
            proof {
                lemma_trivia_end(t, n + 1);
                self.lemma_wf();
            }
            let ghost m = self.offset() as int;
            if self.peek() != Some(')') {
                let res = pattern(self);
                proof { self.lemma_wf(); }
                let ghost call = TermCall { start: m, end: self.offset() as int, result: res };
                proof {
                    assert forall|rest: Seq<TermCall>| #[trigger] (calls.push(call) + rest) == calls + (seq![call] + rest) by {
                        assert(calls.push(call) + rest =~= calls + (seq![call] + rest));
                    }
                    assert forall|rest: Seq<TermCall>| #[trigger] (seq![call] + rest).drop_first() == rest by {
                        assert((seq![call] + rest).drop_first() =~= rest);
                    }
                    assert forall|rest: Seq<TermCall>| #[trigger] (seq![call] + rest)[0] == call by {}
                    assert(seq![call].len() == 1);
                }
                let x = match res {
                    Ok(x) => x,
                    Err(e) => {
                        proof {
                            assert(calls + seq![call] == calls.push(call));
                            let all = seq![first_call] + calls.push(call);
                            assert(all[0] == first_call);
                            assert(all.drop_first() =~= calls.push(call));
                            assert(tuple_rest(t, n0, calls.push(call), seq![gfirst]) == PatEnd::PatError(e, call.end));
                            assert forall|jj: int| #![trigger all[jj]] 0 <= jj < all.len() implies exists|q: &mut Parser|
                                #![trigger pattern.ensures((q,), all[jj].result)]
                                {
                                    &&& q.text() == t
                                    &&& q.offset() == all[jj].start
                                    &&& final(q).offset() == all[jj].end
                                    &&& pattern.ensures((q,), all[jj].result)
                                } by {
                                if jj > 0 {
                                    assert(all[jj] == calls.push(call)[jj - 1]);
                                    if jj - 1 < calls.len() {
                                        assert(calls.push(call)[jj - 1] == calls[jj - 1]);
                                    }
                                }
                            }
                            assert(paren_pattern_result(*old(self), *self, Err::<Syntax, Box<ParseError>>(e), all));
                        }
                        return Err(e);
                    },
                };
                elements.push(x);
                self.skip_whitespace();
                proof {
                    lemma_trivia_end(t, call.end);
                    crate::binder::lemma_trivia_idem(t, call.end);
                    self.lemma_wf();
                    assert forall|rest: Seq<TermCall>|
                        #![trigger tuple_rest(t, n0, calls.push(call) + rest, seq![gfirst])]
                        tuple_rest(t, n0, calls.push(call) + rest, seq![gfirst])
                            == tuple_rest(t, self.offset() as int, rest, elements@) by {
                        assert(tuple_rest(t, n, seq![call] + rest, h0) == tuple_rest(t, self.offset() as int, rest, h0.push(x)));
                    }
                    calls = calls.push(call);
                }
            } else {
                proof {
                    assert forall|rest: Seq<TermCall>|
                        #![trigger tuple_rest(t, n0, calls + rest, seq![gfirst])]
                        tuple_rest(t, n0, calls + rest, seq![gfirst])
                            == tuple_rest(t, self.offset() as int, rest, elements@) by {
                        assert(tuple_rest(t, n, rest, h0) == tuple_rest(t, m, rest, h0));
                    }
                }
            }
        }
        let ghost c = self.offset() as int;
        let ghost all = seq![first_call] + calls;
        proof {
            assert(all[0] == first_call);
            assert(all.drop_first() =~= calls);
            assert(calls + Seq::<TermCall>::empty() =~= calls);
            assert(tuple_rest(t, n0, calls, seq![gfirst]) == PatEnd::Done(elements@, c));
            assert forall|jj: int| #![trigger all[jj]] 0 <= jj < all.len() implies exists|q: &mut Parser|
                #![trigger pattern.ensures((q,), all[jj].result)]
                {
                    &&& q.text() == t
                    &&& q.offset() == all[jj].start
                    &&& final(q).offset() == all[jj].end
                    &&& pattern.ensures((q,), all[jj].result)
                } by {
                if jj > 0 {
                    assert(all[jj] == calls[jj - 1]);
                }
            }
        }
        match self.expect_char(')') {
            Ok(()) => {},
            Err(e) => {
                proof { assert(paren_pattern_result(*old(self), *self, Err::<Syntax, Box<ParseError>>(e), all)); }
                return Err(e);
            },
        }
        let range = self.input().range_from(start);
        let node = self.create_node(SyntaxKind::TuplePattern, range, elements);
        proof { assert(paren_pattern_result(*old(self), *self, Ok::<Syntax, Box<ParseError>>(node), all)); }
        Ok(node)
    }
}

} // verus!
