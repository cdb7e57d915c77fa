//! Interpolated strings `s!"text {term} text"`: the text between the
//! interpolations, with escapes replaced, and the terms, which a term
//! parser given by the caller reads.
use vstd::prelude::*;
use crate::error::{ParseError, ParserResult, is_custom};
use crate::input::string_push;
use crate::literals::expect_error;
use crate::parser::Parser;
use crate::scan::{lemma_trivia_end, trivia_end};
use crate::syntax::{pos_at, range_at, Syntax, SyntaxKind};

verus! {

/// What an escape `\c` stands for in an interpolated string.
pub open spec fn interp_escape(c: char) -> Option<char> {
    if c == 'n' {
        Some('\n')
    } else if c == 't' {
        Some('\t')
    } else if c == 'r' {
        Some('\r')
    } else if c == '\\' || c == '"' || c == '{' || c == '}' {
        Some(c)
    } else {
        None
    }
}

/// A run of text in an interpolated string, with escapes replaced, and
/// what ends it.
pub ghost enum Chunk {
    /// The closing `"` at the index given.
    Closed(Seq<char>, int),
    /// An interpolation `{` at the index given.
    Opened(Seq<char>, int),
    /// An unknown escape; the error stands at the index given.
    BadEscape(int),
    /// The end of the text.
    Unclosed(Seq<char>),
}

/// `s` followed by the text of `ch`.
pub open spec fn prepend_text(s: Seq<char>, ch: Chunk) -> Chunk {
    match ch {
        Chunk::Closed(c, k) => Chunk::Closed(s + c, k),
        Chunk::Opened(c, k) => Chunk::Opened(s + c, k),
        Chunk::BadEscape(k) => Chunk::BadEscape(k),
        Chunk::Unclosed(c) => Chunk::Unclosed(s + c),
    }
}

/// The run of text from `k` on.
pub open spec fn chunk_from(t: Seq<char>, k: int) -> Chunk
    decreases t.len() - k,
{
    if k < 0 || k >= t.len() {
        Chunk::Unclosed(Seq::empty())
    } else if t[k] == '"' {
        Chunk::Closed(Seq::empty(), k)
    } else if t[k] == '{' {
        Chunk::Opened(Seq::empty(), k)
    } else if t[k] == '\\' {
        if k + 1 < t.len() && interp_escape(t[k + 1]) is Some {
            prepend_text(seq![interp_escape(t[k + 1]).unwrap()], chunk_from(t, k + 2))
        } else {
            Chunk::BadEscape(k + 1)
        }
    } else {
        prepend_text(seq![t[k]], chunk_from(t, k + 1))
    }
}

/// Escapes in the text of an interpolated string: after a backslash, `n`
/// stands for a line feed (U+000A), `t` for a tab (U+0009), `r` for a
/// carriage return (U+000D), and `\`, `"`, `{` and `}` for themselves; the
/// text reads on after the escape, and any other character there is an
/// invalid escape just after the backslash. A `{` opens an interpolation and
/// a `"` closes the string, each where it stands.
pub proof fn law_interpolated_escapes(t: Seq<char>, k: int)
    requires
        0 <= k < t.len(),
    ensures
        t[k] == '"' ==> chunk_from(t, k) == Chunk::Closed(Seq::empty(), k),
        t[k] == '{' ==> chunk_from(t, k) == Chunk::Opened(Seq::empty(), k),
        t[k] == '\\' && k + 1 < t.len() && t[k + 1] == 'n' ==> chunk_from(t, k) == prepend_text(seq!['\u{a}'], chunk_from(t, k + 2)),
        t[k] == '\\' && k + 1 < t.len() && t[k + 1] == 't' ==> chunk_from(t, k) == prepend_text(seq!['\u{9}'], chunk_from(t, k + 2)),
        t[k] == '\\' && k + 1 < t.len() && t[k + 1] == 'r' ==> chunk_from(t, k) == prepend_text(seq!['\u{d}'], chunk_from(t, k + 2)),
        t[k] == '\\' && k + 1 < t.len() && (t[k + 1] == '\\' || t[k + 1] == '"' || t[k + 1] == '{' || t[k + 1] == '}')
            ==> chunk_from(t, k) == prepend_text(seq![t[k + 1]], chunk_from(t, k + 2)),
        t[k] == '\\' && !(k + 1 < t.len() && (t[k + 1] == 'n' || t[k + 1] == 't' || t[k + 1] == 'r' || t[k + 1] == '\\'
            || t[k + 1] == '"' || t[k + 1] == '{' || t[k + 1] == '}')) ==> chunk_from(t, k) == Chunk::BadEscape(k + 1),
        t[k] != '"' && t[k] != '{' && t[k] != '\\' ==> chunk_from(t, k) == prepend_text(seq![t[k]], chunk_from(t, k + 1)),
{
}

/// A call of the term parser: where the cursor stood, where it ended, and
/// what came back.
pub ghost struct TermCall {
    pub start: int,
    pub end: int,
    pub result: ParserResult<Syntax>,
}

/// A piece of an interpolated string: text (its atom's span ends at the
/// index given) or a term.
pub ghost enum Part {
    Text(Seq<char>, int),
    Term(Syntax),
}

/// How reading an interpolated string ends.
pub ghost enum Outcome {
    /// With these pieces, the cursor at the index given.
    Done(Seq<Part>, int),
    /// With an error `msg` at the index given.
    Custom(Seq<char>, int),
    /// With the error of `expect_char(c)` at the index given.
    Expect(char, int),
    /// With the error the term parser gave; the cursor where it left it.
    TermError(Box<ParseError>, int),
    /// The calls do not fit the text.
    Stuck,
}

/// The text piece for `c`, if it is not empty.
pub open spec fn text_part(c: Seq<char>, end: int) -> Seq<Part> {
    if c.len() > 0 {
        seq![Part::Text(c, end)]
    } else {
        Seq::empty()
    }
}

/// How reading goes on after the run of text `ch`, which started at `k`,
/// with `parts` read so far and the term calls `calls` still to come: a
/// closing `"` ends it (the pending text becomes a piece), the end of the
/// text ends it too (the pending text is dropped), an unknown escape is an
/// error; at `{` the pending text becomes a piece, whitespace and comments
/// are skipped, the next call reads a term there, whitespace and comments
/// are skipped and `}` must follow.
pub open spec fn after_chunk(t: Seq<char>, k: int, ch: Chunk, calls: Seq<TermCall>, parts: Seq<Part>) -> Outcome
    decreases t.len() - k,
{
    match ch {
        Chunk::BadEscape(p) => Outcome::Custom("invalid escape sequence"@, p),
        Chunk::Unclosed(c) => if calls.len() == 0 {
            Outcome::Done(parts, t.len() as int)
        } else {
            Outcome::Stuck
        },
        Chunk::Closed(c, q) => if calls.len() == 0 {
            Outcome::Done(parts + text_part(c, q + 1), q + 1)
        } else {
            Outcome::Stuck
        },
        Chunk::Opened(c, p) => {
            let parts2 = parts + text_part(c, p);
            let m = trivia_end(t, p + 1);
            if calls.len() == 0 || calls[0].start != m {
                Outcome::Stuck
            } else {
                match calls[0].result {
                    Err(e) => if calls.len() == 1 {
                        Outcome::TermError(e, calls[0].end)
                    } else {
                        Outcome::Stuck
                    },
                    Ok(s) => {
                        let n = trivia_end(t, calls[0].end);
                        if !(0 <= n < t.len() && t[n] == '}') {
                            if calls.len() == 1 {
                                Outcome::Expect('}', n)
                            } else {
                                Outcome::Stuck
                            }
                        } else if n + 1 > k {
                            after_chunk(
                                t,
                                n + 1,
                                chunk_from(t, n + 1),
                                calls.drop_first(),
                                parts2.push(Part::Term(s)),
                            )
                        } else {
                            Outcome::Stuck
                        }
                    },
                }
            }
        },
    }
}

/// `c` is the piece `part` of an interpolated string that starts at `i`.
pub open spec fn part_matches(c: Syntax, part: Part, t: Seq<char>, i: int) -> bool {
    match part {
        Part::Text(v, end) => c matches Syntax::Atom(a) && a.value@ == v && a.range == range_at(t, i as nat, end as nat),
        Part::Term(s) => c == s,
    }
}

/// What `interpolated_string_literal` returns from `p`, given the calls of
/// the term parser: the two characters `s!` are taken, `"` must follow,
/// then the runs of text and interpolations (see `after_chunk`); the
/// result is a `StringInterpolation` node spanning from the cursor, its
/// children the pieces.
pub open spec fn interpolated_result(p: Parser, q: Parser, r: ParserResult<Syntax>, calls: Seq<TermCall>) -> bool {
    let t = p.text();
    let i = p.offset() as int;
    let k0 = if i + 2 <= t.len() { i + 2 } else { t.len() as int };
    &&& q.text() == t
    &&& if !(k0 < t.len() && t[k0] == '"') {
        &&& calls.len() == 0
        &&& q.offset() == k0
        &&& r matches Err(e) && expect_error(*e, t, k0, '"')
    } else {
        match after_chunk(t, k0 + 1, chunk_from(t, k0 + 1), calls, Seq::empty()) {
            Outcome::Done(parts, e) => {
                &&& q.offset() == e
                &&& r matches Ok(s) && s matches Syntax::Node(n) && {
                    &&& n.kind == SyntaxKind::StringInterpolation
                    &&& n.range == range_at(t, i as nat, e as nat)
                    &&& n.children@.len() == parts.len()
                    &&& forall|j: int| 0 <= j < parts.len() ==> #[trigger] part_matches(n.children@[j], parts[j], t, i)
                }
            },
            Outcome::Custom(msg, o) => {
                &&& q.offset() == o
                &&& r matches Err(e) && is_custom(*e, msg, pos_at(t, o as nat))
            },
            Outcome::Expect(c, o) => {
                &&& q.offset() == o
                &&& r matches Err(e) && expect_error(*e, t, o, c)
            },
            Outcome::TermError(e, o) => {
                &&& q.offset() == o
                &&& r == Err::<Syntax, Box<ParseError>>(e)
            },
            Outcome::Stuck => false,
        }
    }
}

/// The run of text from `k` on ends at or after `k`, within the text.
proof fn lemma_chunk_from(t: Seq<char>, k: int)
    requires
        0 <= k <= t.len(),
    ensures
        chunk_from(t, k) matches Chunk::Closed(c, q) ==> k <= q < t.len() && t[q] == '"',
        chunk_from(t, k) matches Chunk::Opened(c, q) ==> k <= q < t.len() && t[q] == '{',
        chunk_from(t, k) matches Chunk::BadEscape(q) ==> k < q <= t.len(),
    decreases t.len() - k,
{
    if 0 <= k < t.len() && t[k] != '"' && t[k] != '{' {
        if t[k] == '\\' {
            if k + 1 < t.len() && interp_escape(t[k + 1]) is Some {
                lemma_chunk_from(t, k + 2);
            }
        } else {
            lemma_chunk_from(t, k + 1);
        }
    }
}

proof fn lemma_prepend_empty(ch: Chunk)
    ensures
        prepend_text(Seq::empty(), ch) == ch,
{
    match ch {
        Chunk::Closed(x, k) => { assert(Seq::<char>::empty() + x =~= x); },
        Chunk::Opened(x, k) => { assert(Seq::<char>::empty() + x =~= x); },
        Chunk::BadEscape(k) => {},
        Chunk::Unclosed(x) => { assert(Seq::<char>::empty() + x =~= x); },
    }
}

proof fn lemma_prepend_text_push(s: Seq<char>, c: char, ch: Chunk)
    ensures
        prepend_text(s, prepend_text(seq![c], ch)) == prepend_text(s.push(c), ch),
{
    match ch {
        Chunk::Closed(x, k) => { assert(s + (seq![c] + x) =~= s.push(c) + x); },
        Chunk::Opened(x, k) => { assert(s + (seq![c] + x) =~= s.push(c) + x); },
        Chunk::BadEscape(k) => {},
        Chunk::Unclosed(x) => { assert(s + (seq![c] + x) =~= s.push(c) + x); },
    }
}

impl Parser {
    /// Parses an interpolated string `s!"..."` at the cursor, reading each
    /// interpolated term with `term` (see `interpolated_result`; the calls
    /// are ones that `term` can make).
    pub fn interpolated_string_literal<F>(&mut self, term: F) -> (r: ParserResult<Syntax>) where
        F: Fn(&mut Parser) -> ParserResult<Syntax>,
        requires
            old(self).wf(),
            forall|q: &mut Parser| q.wf() ==> term.requires((q,)),
            forall|q: &mut Parser, x: ParserResult<Syntax>|
                term.ensures((q,), x) ==> {
                    &&& final(q).wf()
                    &&& final(q).text() == q.text()
                    &&& final(q).offset() >= q.offset()
                },
        ensures
            final(self).wf(),
            exists|calls: Seq<TermCall>|
                #![trigger interpolated_result(*old(self), *final(self), r, calls)]
                {
                    &&& interpolated_result(*old(self), *final(self), r, calls)
                    &&& forall|j: int|
                        #![trigger calls[j]]
                        0 <= j < calls.len() ==> exists|q: &mut Parser|
                            #![trigger term.ensures((q,), calls[j].result)]
                            {
                                &&& q.text() == old(self).text()
                                &&& q.offset() == calls[j].start
                                &&& final(q).offset() == calls[j].end
                                &&& term.ensures((q,), calls[j].result)
                            }
                },
    {
        proof { self.lemma_wf(); }
        let ghost t = self.text();
        let ghost i = self.offset() as int;
        let start = self.position();
        self.advance();
        self.advance();
        let ghost k0 = self.offset() as int;
        match self.expect_char('"') {
            Ok(()) => {},
            Err(e) => {
                proof {
                    assert(interpolated_result(*old(self), *self, Err::<Syntax, Box<ParseError>>(e), Seq::empty()));
                }
                return Err(e);
            },
        }
        proof { lemma_chunk_from(t, k0 + 1); }
        let ghost mut calls: Seq<TermCall> = Seq::empty();
        let ghost mut gparts: Seq<Part> = Seq::empty();
        let ghost mut kstart: int = k0 + 1;
        let mut parts: Vec<Syntax> = Vec::new();
        let mut current = String::new();
        proof {
            lemma_prepend_empty(chunk_from(t, k0 + 1));
            assert forall|rest: Seq<TermCall>| #[trigger] (calls + rest) == rest by {
                assert(calls + rest =~= rest);
            }
        }
        loop
            invariant_except_break
                forall|rest: Seq<TermCall>|
                    #![trigger after_chunk(t, k0 + 1, chunk_from(t, k0 + 1), calls + rest, Seq::<Part>::empty())]
                    after_chunk(t, k0 + 1, chunk_from(t, k0 + 1), calls + rest, Seq::<Part>::empty())
                        == after_chunk(t, kstart, prepend_text(current@, chunk_from(t, self.offset() as int)), rest, gparts),
            invariant
                self.wf(),
                t == self.text(),
                t == old(self).text(),
                i == old(self).offset(),
                0 <= i,
                k0 == (if i + 2 <= t.len() { i + 2 } else { t.len() as int }),
                k0 < t.len(),
                t[k0] == '"',
                start == pos_at(t, i as nat),
                k0 + 1 <= kstart <= self.offset() <= t.len(),
                forall|q: &mut Parser| q.wf() ==> term.requires((q,)),
                forall|q: &mut Parser, x: ParserResult<Syntax>|
                    term.ensures((q,), x) ==> {
                        &&& final(q).wf()
                        &&& final(q).text() == q.text()
                        &&& final(q).offset() >= q.offset()
                    },
                forall|j: int|
                    #![trigger calls[j]]
                    0 <= j < calls.len() ==> exists|q: &mut Parser|
                        #![trigger term.ensures((q,), calls[j].result)]
                        {
                            &&& q.text() == t
                            &&& q.offset() == calls[j].start
                            &&& final(q).offset() == calls[j].end
                            &&& term.ensures((q,), calls[j].result)
                        },
                parts@.len() == gparts.len(),
                forall|j: int| 0 <= j < gparts.len() ==> #[trigger] part_matches(parts@[j], gparts[j], t, i),
            ensures
                after_chunk(t, k0 + 1, chunk_from(t, k0 + 1), calls, Seq::<Part>::empty())
                    == Outcome::Done(gparts, self.offset() as int),
            decreases t.len() - self.offset(),
        {
            proof { self.lemma_wf(); }
            let ghost k = self.offset() as int;
            match self.peek() {
                Some(ch) => {
                    if ch == '"' {
                        self.advance();
                        let ghost c0 = current@;
                        if current.as_str().unicode_len() > 0 {
                            let range = self.input().range_from(start);
                            let atom = self.create_atom(range, current);
                            parts.push(atom);
                            proof {
                                gparts = gparts + text_part(c0, k + 1);
                            }
                        } else {
                            proof {
                                assert(gparts + text_part(c0, k + 1) =~= gparts);
                                gparts = gparts + text_part(c0, k + 1);
                            }
                        }
                        proof {
                            assert(calls + Seq::<TermCall>::empty() =~= calls);
                        }
                        break;
                    } else if ch == '{' {
                        let ghost c0 = current@;
                        let ghost g0 = gparts;
                        if current.as_str().unicode_len() > 0 {
                            let range = self.input().range_from(start);
                            let atom = self.create_atom(range, current);
                            parts.push(atom);
                            current = String::new();
                        }
                        proof {
                            gparts = gparts + text_part(c0, k);
                        }
                        self.advance();
                        self.skip_whitespace();
                        proof { lemma_trivia_end(t, k + 1); }
                        let ghost m = self.offset() as int;
                        let ghost before_term = *self;
                        let res = term(self);
                        proof { self.lemma_wf(); }
                        let ghost e = self.offset() as int;
                        let ghost call = TermCall { start: m, end: e, result: res };
                        let expr = match res {
                            Ok(x) => x,
                            Err(err) => {
                                proof {
                                    let rest_calls = calls.push(call);
                                    assert(calls + seq![call] =~= rest_calls);
                                    assert(seq![call][0] == call);
                                    assert(after_chunk(t, k0 + 1, chunk_from(t, k0 + 1), calls + seq![call], Seq::<Part>::empty())
                                        == after_chunk(t, kstart, prepend_text(c0, chunk_from(t, k)), seq![call], g0));
                                    assert(chunk_from(t, k) == Chunk::Opened(Seq::empty(), k));
                                    assert(c0 + Seq::<char>::empty() =~= c0);
                                    assert(interpolated_result(*old(self), *self, Err::<Syntax, Box<ParseError>>(err), rest_calls));
                                }
                                return Err(err);
                            },
                        };
                        let ghost gexpr = expr;
                        parts.push(expr);
                        self.skip_whitespace();
                        proof { lemma_trivia_end(t, e); }
                        match self.expect_char('}') {
                            Ok(()) => {},
                            Err(err) => {
                                proof {
                                    let rest_calls = calls.push(call);
                                    assert(calls + seq![call] =~= rest_calls);
                                    assert(seq![call][0] == call);
                                    assert(after_chunk(t, k0 + 1, chunk_from(t, k0 + 1), calls + seq![call], Seq::<Part>::empty())
                                        == after_chunk(t, kstart, prepend_text(c0, chunk_from(t, k)), seq![call], g0));
                                    assert(chunk_from(t, k) == Chunk::Opened(Seq::empty(), k));
                                    assert(c0 + Seq::<char>::empty() =~= c0);
                                    assert(interpolated_result(*old(self), *self, Err::<Syntax, Box<ParseError>>(err), rest_calls));
                                }
                                return Err(err);
                            },
                        }
                        proof {
                            let n = trivia_end(t, e);
                            assert forall|rest: Seq<TermCall>|
                                #![trigger after_chunk(t, k0 + 1, chunk_from(t, k0 + 1), calls.push(call) + rest, Seq::<Part>::empty())]
                                after_chunk(t, k0 + 1, chunk_from(t, k0 + 1), calls.push(call) + rest, Seq::<Part>::empty())
                                    == after_chunk(t, n + 1, prepend_text(Seq::empty(), chunk_from(t, n + 1)), rest, gparts.push(Part::Term(gexpr))) by {
                                assert(calls + (seq![call] + rest) =~= calls.push(call) + rest);
                                assert((seq![call] + rest)[0] == call);
                                assert((seq![call] + rest).drop_first() =~= rest);
                                lemma_prepend_empty(chunk_from(t, n + 1));
                            }
                            calls = calls.push(call);
                            gparts = gparts.push(Part::Term(gexpr));
                            kstart = n + 1;
                            lemma_chunk_from(t, n + 1);
                        }
                    } else if ch == '\\' {
                        self.advance();
                        let esc = match self.peek() {
                            Some('n') => '\n',
                            Some('t') => '\t',
                            Some('r') => '\r',
                            Some('\\') => '\\',
                            Some('"') => '"',
                            Some('{') => '{',
                            Some('}') => '}',
                            _ => {
                                let err = ParseError::custom("invalid escape sequence", self.position());
                                proof {
                                    assert(chunk_from(t, k) == Chunk::BadEscape(k + 1));
                                    assert(calls + Seq::<TermCall>::empty() =~= calls);
                                    assert(interpolated_result(*old(self), *self, Err::<Syntax, Box<ParseError>>(err), calls));
                                }
                                return Err(err);
                            },
                        };
                        let ghost c0 = current@;
                        self.advance();
                        string_push(&mut current, esc);
                        proof {
                            assert(chunk_from(t, k) == prepend_text(seq![esc], chunk_from(t, k + 2)));
                            lemma_prepend_text_push(c0, esc, chunk_from(t, k + 2));
                        }
                    } else {
                        let ghost c0 = current@;
                        string_push(&mut current, ch);
                        self.advance();
                        proof {
                            assert(chunk_from(t, k) == prepend_text(seq![ch], chunk_from(t, k + 1)));
                            lemma_prepend_text_push(c0, ch, chunk_from(t, k + 1));
                        }
                    }
                },
                None => {
                    proof {
                        assert(calls + Seq::<TermCall>::empty() =~= calls);
                    }
                    break;
                },
            }
        }
        let range = self.input().range_from(start);
        let node = self.create_node(SyntaxKind::StringInterpolation, range, parts);
        proof {
            assert(interpolated_result(*old(self), *self, Ok::<Syntax, Box<ParseError>>(node), calls));
        }
        Ok(node)
    }
}

} // verus!
