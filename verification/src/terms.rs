//! Term forms: bracketed terms (a list literal `[a, b, c]`, or else an
//! instance implicit binder `[Monad m]`), the placeholder `·`, and what
//! the cursor stands at. A term parser given by the caller reads terms.
use vstd::prelude::*;
use crate::binder::binder_result;
use crate::error::{ParseError, ParserResult};
use crate::interpolation::TermCall;
use crate::lexical::{is_alphabetic, is_numeric, unicode_alphabetic, unicode_numeric};
use crate::literals::expect_error;
use crate::parser::Parser;
use crate::input::string_push;
use crate::scan::{lemma_subrange_push, lemma_trivia_end, trivia_end};
use crate::syntax::{pos_at, range_at, Syntax, SyntaxKind};

verus! {

/// How reading the elements of a bracket ends.
pub ghost enum Elems {
    /// At a `]`, at the index given, with these elements, whether a comma
    /// was seen, and the calls left.
    Closed(Seq<Syntax>, int, bool, Seq<TermCall>),
    /// It is no list; the calls left.
    NotList(Seq<TermCall>),
    /// The calls do not fit the text.
    Stuck,
}

/// The elements of a bracket from `k`, `k` standing after `[` or `,` and
/// after whitespace and comments: a term read by the next call (where it
/// fails, this is no list), whitespace and comments, then `,` (and more
/// whitespace and comments and the next element) or `]`; anything else
/// ends the list as no list. A first element that is an atom followed by
/// an alphabetic character, before any comma, makes it no list.
pub open spec fn bracket_elems(t: Seq<char>, k: int, calls: Seq<TermCall>, elems: Seq<Syntax>, saw_comma: bool) -> Elems
    decreases t.len() - k,
{
    if calls.len() == 0 || calls[0].start != k {
        Elems::Stuck
    } else {
        let rest = calls.drop_first();
        match calls[0].result {
            Err(_) => Elems::NotList(rest),
            Ok(x) => {
                let n = trivia_end(t, calls[0].end);
                if elems.len() == 0 && !saw_comma && x is Atom && 0 <= n < t.len() && unicode_alphabetic(t[n]) {
                    Elems::NotList(rest)
                } else if 0 <= n < t.len() && t[n] == ',' {
                    let k2 = trivia_end(t, n + 1);
                    if k < k2 <= t.len() {
                        bracket_elems(t, k2, rest, elems.push(x), true)
                    } else {
                        Elems::Stuck
                    }
                } else if 0 <= n < t.len() && t[n] == ']' {
                    Elems::Closed(elems.push(x), n, saw_comma, rest)
                } else {
                    Elems::NotList(rest)
                }
            },
        }
    }
}

/// A lone element that makes a list by itself: an atom whose text starts
/// with a numeric character, or a string literal.
pub open spec fn literal_like(x: Syntax) -> bool {
    match x {
        Syntax::Atom(a) => a.value@.len() > 0 && unicode_numeric(a.value@[0]),
        Syntax::Node(n) => n.kind == SyntaxKind::StringLit,
        Syntax::Missing => false,
    }
}

/// `s` is a `List` node spanning from `i` to `e` with these elements.
pub open spec fn is_list(s: Syntax, t: Seq<char>, i: int, e: int, elems: Seq<Syntax>) -> bool {
    s matches Syntax::Node(n) && {
        &&& n.kind == SyntaxKind::List
        &&& n.range == range_at(t, i as nat, e as nat)
        &&& n.children@ == elems
    }
}

/// What `bracket_term` returns from `p`, given the calls of the term
/// parser: `[`, whitespace and comments; `]` makes an empty list; else the
/// elements (see `bracket_elems`) make a list where they close with `]`
/// and a comma was seen or the one element is literal-like; otherwise the
/// cursor returns to where the elements started and the calls left read
/// an instance implicit binder from there (see `binder_result`).
pub open spec fn bracket_result(p: Parser, q: Parser, r: ParserResult<Syntax>, calls: Seq<TermCall>) -> bool {
    let t = p.text();
    let i = p.offset() as int;
    let k0 = trivia_end(t, i + 1);
    &&& q.text() == t
    &&& if !(i < t.len() && t[i] == '[') {
        &&& calls.len() == 0
        &&& q.offset() == i
        &&& r matches Err(e) && expect_error(*e, t, i, '[')
    } else if k0 < t.len() && t[k0] == ']' {
        &&& calls.len() == 0
        &&& q.offset() == k0 + 1
        &&& r matches Ok(s) && is_list(s, t, i, k0 + 1, Seq::empty())
    } else {
        match bracket_elems(t, k0, calls, Seq::empty(), false) {
            Elems::Closed(elems, n, saw, rest) => if saw || elems.len() == 0 || (elems.len() == 1
                && literal_like(elems[0])) {
                &&& rest.len() == 0
                &&& q.offset() == n + 1
                &&& r matches Ok(s) && is_list(s, t, i, n + 1, elems)
            } else {
                exists|b: Parser| #[trigger] binder_result(b, q, r, rest) && b.text() == t && b.offset() == k0
            },
            Elems::NotList(rest) => exists|b: Parser|
                #[trigger] binder_result(b, q, r, rest) && b.text() == t && b.offset() == k0,
            Elems::Stuck => false,
        }
    }
}


/// How reading goes on from `k` with the calls `rest`: the elements still
/// to read while `state` is 0, closed at `k` where it is 1, no list where
/// it is 2.
pub open spec fn elems_from(t: Seq<char>, k: int, rest: Seq<TermCall>, elems: Seq<Syntax>, saw: bool, state: u8) -> Elems {
    if state == 0 {
        bracket_elems(t, k, rest, elems, saw)
    } else if state == 1 {
        Elems::Closed(elems, k, saw, rest)
    } else {
        Elems::NotList(rest)
    }
}

/// The text from `k` on, at most `n` characters of it.
pub open spec fn text_ahead(t: Seq<char>, k: int, n: int) -> Seq<char> {
    t.subrange(k, if k + n <= t.len() { k + n } else { t.len() as int })
}

/// A character that ends a term: `,`, `;`, a closing bracket, or `|`.
pub open spec fn is_term_boundary(c: Option<char>) -> bool {
    match c {
        None => true,
        Some(c) => c == ',' || c == ';' || c == ')' || c == '}' || c == ']' || c == '|' || c == '⟩',
    }
}

/// Is `x` literal-like (see `literal_like`)?
fn is_literal_like(x: &Syntax) -> (b: bool)
    ensures
        b == literal_like(*x),
{
    match x {
        Syntax::Atom(a) => {
            let s = a.value.as_str();
            s.unicode_len() > 0 && is_numeric(s.get_char(0))
        },
        Syntax::Node(n) => n.kind == SyntaxKind::StringLit,
        Syntax::Missing => false,
    }
}

impl Parser {
    /// A bracketed term at the cursor (see `bracket_result`; the calls are
    /// ones that `term` can make): a list literal, or else an instance
    /// implicit binder read by `binder_group`. The elements are tried from
    /// a saved position; `term` must leave the saved positions as they
    /// were.
    #[verifier::spinoff_prover]
    #[verifier::rlimit(80)]
    pub fn bracket_term<F>(&mut self, term: F) -> (r: ParserResult<Syntax>) where
        F: Fn(&mut Parser) -> ParserResult<Syntax> + Copy,
        requires
            old(self).wf(),
            forall|q: &mut Parser| q.wf() ==> term.requires((q,)),
            forall|q: &mut Parser, x: ParserResult<Syntax>|
                term.ensures((q,), x) ==> {
                    &&& final(q).wf()
                    &&& final(q).text() == q.text()
                    &&& final(q).offset() >= q.offset()
                    &&& final(q).saved() == q.saved()
                },
        ensures
            final(self).wf(),
            exists|calls: Seq<TermCall>|
                #![trigger bracket_result(*old(self), *final(self), r, calls)]
                {
                    &&& bracket_result(*old(self), *final(self), r, calls)
                    &&& forall|j: int|
                        #![trigger calls[j]]
                        0 <= j < calls.len() ==> exists|q: &mut Parser|
                            #![trigger term.ensures((q,), calls[j].result)]
                            {
                                &&& q.text() == old(self).text()
                                &&& q.offset() == calls[j].start
                                &&& final(q).offset() == calls[j].end
                                &&& term.ensures((q,), calls[j].result)
                            }
                },
    {
        proof { self.lemma_wf(); }
        let ghost t = self.text();
        let ghost i = self.offset() as int;
        let ghost none: Seq<TermCall> = Seq::empty();
        let start = self.position();
        match self.expect_char('[') {
            Ok(()) => {},
            Err(e) => {
                proof { assert(bracket_result(*old(self), *self, Err::<Syntax, Box<ParseError>>(e), none)); }
                return Err(e);
            },
        }
        self.skip_whitespace();
        proof {
            lemma_trivia_end(t, i + 1);
            self.lemma_wf();
        }
        let ghost k0 = self.offset() as int;
        if self.peek() == Some(']') {
            self.advance();
            let range = self.input().range_from(start);
            let node = self.create_node(SyntaxKind::List, range, Vec::new());
            proof { assert(bracket_result(*old(self), *self, Ok::<Syntax, Box<ParseError>>(node), none)); }
            return Ok(node);
        }
        self.save_position();
        let ghost saved0 = self.saved();
        let mut elements: Vec<Syntax> = Vec::new();
        let mut saw_comma = false;
        let mut state: u8 = 0;
        let ghost mut calls: Seq<TermCall> = Seq::empty();
        proof {
            assert forall|rest: Seq<TermCall>| #[trigger] (calls + rest) == rest by {
                assert(calls + rest =~= rest);
            }
        }
        while state == 0
            invariant
                self.wf(),
                t == self.text(),
                t == old(self).text(),
                i == old(self).offset(),
                start == pos_at(t, i as nat),
                i < t.len() && t[i] == '[',
                k0 == trivia_end(t, i + 1),
                !(k0 < t.len() && t[k0] == ']'),
                k0 <= self.offset() <= t.len(),
                state <= 2,
                state == 0 ==> trivia_end(t, self.offset() as int) == self.offset(),
                state == 1 ==> self.offset() < t.len() && t[self.offset() as int] == ']',
                self.saved() == saved0,
                saved0 == old(self).saved().push(k0 as nat),
                forall|q: &mut Parser| q.wf() ==> term.requires((q,)),
                forall|q: &mut Parser, x: ParserResult<Syntax>|
                    term.ensures((q,), x) ==> {
                        &&& final(q).wf()
                        &&& final(q).text() == q.text()
                        &&& final(q).offset() >= q.offset()
                        &&& final(q).saved() == q.saved()
                    },
                forall|rest: Seq<TermCall>|
                    #![trigger bracket_elems(t, k0, calls + rest, Seq::<Syntax>::empty(), false)]
                    bracket_elems(t, k0, calls + rest, Seq::<Syntax>::empty(), false)
                        == elems_from(t, self.offset() as int, rest, elements@, saw_comma, state),
                forall|jj: int|
                    #![trigger calls[jj]]
                    0 <= jj < calls.len() ==> exists|q: &mut Parser|
                        #![trigger term.ensures((q,), calls[jj].result)]
                        {
                            &&& q.text() == t
                            &&& q.offset() == calls[jj].start
                            &&& final(q).offset() == calls[jj].end
                            &&& term.ensures((q,), calls[jj].result)
                        },
            decreases t.len() - self.offset(), if state == 0 { 1int } else { 0int },
        {
            proof { self.lemma_wf(); }
            let ghost k = self.offset() as int;
            let ghost h0 = elements@;
            let ghost saw0 = saw_comma;
            self.save_position();
            let res = term(self);
            proof { self.lemma_wf(); }
            let ghost call = TermCall { start: k, end: self.offset() as int, result: res };
            proof {
                assert forall|rest: Seq<TermCall>| #[trigger] (calls.push(call) + rest) == calls + (seq![call] + rest) by {
                    assert(calls.push(call) + rest =~= calls + (seq![call] + rest));
                }
                assert forall|rest: Seq<TermCall>| #[trigger] (seq![call] + rest).drop_first() == rest by {
                    assert((seq![call] + rest).drop_first() =~= rest);
                }
                assert forall|rest: Seq<TermCall>| #[trigger] (seq![call] + rest)[0] == call by {}
            }
            match res {
                Err(_) => {
                    self.restore_position();
                    state = 2;
                },
                Ok(elem) => {
                    self.commit_position();
                    let ghost e = self.offset() as int;
                    let first_atom = elements.len() == 0 && !saw_comma && matches!(elem, Syntax::Atom(_));
                    if first_atom {
                        self.skip_whitespace();
                        proof { lemma_trivia_end(t, e); }
                        match self.peek() {
                            Some(c) => {
                                if is_alphabetic(c) {
                                    state = 2;
                                }
                            },
                            None => {},
                        }
                    }
                    if state == 0 {
                        elements.push(elem);
                        self.skip_whitespace();
                        proof {
                            lemma_trivia_end(t, e);
                            crate::binder::lemma_trivia_idem(t, e);
                            self.lemma_wf();
                        }
                        let ghost n = self.offset() as int;
                        if self.peek() == Some(',') {
                            saw_comma = true;
                            self.advance();
                            self.skip_whitespace();
                            proof {
                                lemma_trivia_end(t, n + 1);
                                crate::binder::lemma_trivia_idem(t, n + 1);
                            }
                        } else if self.peek() == Some(']') {
                            state = 1;
                        } else {
                            state = 2;
                        }
                    }
                },
            }
            proof {
                self.lemma_wf();
                calls = calls.push(call);
            }
        }
        let ghost off = self.offset() as int;
        if state == 1 && (saw_comma || elements.len() == 0 || (elements.len() == 1 && is_literal_like(&elements[0]))) {
            self.advance();
            self.commit_position();
            let range = self.input().range_from(start);
            let ghost elems = elements@;
            let node = self.create_node(SyntaxKind::List, range, elements);
            proof {
                assert(calls + none =~= calls);
                assert(bracket_result(*old(self), *self, Ok::<Syntax, Box<ParseError>>(node), calls));
            }
            return Ok(node);
        }
        self.restore_position();
        proof { self.lemma_wf(); }
        let ghost b = *self;
        let r = self.binder_group(term);
        let ghost more = choose|more: Seq<TermCall>|
            {
                &&& binder_result(b, *self, r, more)
                &&& forall|j: int|
                    #![trigger more[j]]
                    0 <= j < more.len() ==> exists|q: &mut Parser|
                        #![trigger term.ensures((q,), more[j].result)]
                        {
                            &&& q.text() == t
                            &&& q.offset() == more[j].start
                            &&& final(q).offset() == more[j].end
                            &&& term.ensures((q,), more[j].result)
                        }
            };
        let ghost all = calls + more;
        proof {
            assert forall|jj: int| #![trigger all[jj]] 0 <= jj < all.len() implies exists|q: &mut Parser|
                #![trigger term.ensures((q,), all[jj].result)]
                {
                    &&& q.text() == t
                    &&& q.offset() == all[jj].start
                    &&& final(q).offset() == all[jj].end
                    &&& term.ensures((q,), all[jj].result)
                } by {
                if jj < calls.len() {
                    assert(all[jj] == calls[jj]);
                } else {
                    assert(all[jj] == more[jj - calls.len()]);
                }
            }
            assert(binder_result(b, *self, r, more) && b.text() == t && b.offset() == k0);
            assert(bracket_elems(t, k0, calls + more, Seq::<Syntax>::empty(), false)
                == elems_from(t, off, more, elements@, saw_comma, state));
            let x = bracket_elems(t, k0, all, Seq::<Syntax>::empty(), false);
            if state == 1 {
                assert(x == Elems::Closed(elements@, off, saw_comma, more));
                assert(binder_result(b, *self, r, x->Closed_3));
            } else {
                assert(x == Elems::NotList(more));
                assert(binder_result(b, *self, r, x->NotList_0));
            }
            assert(bracket_result(*old(self), *self, r, all));
        }
        r
    }

    /// The next `n` characters, fewer where the text ends first.
    pub fn peek_chars(&self, n: usize) -> (s: String)
        requires
            self.wf(),
        ensures
            s@ == text_ahead(self.text(), self.offset() as int, n as int),
    {
        proof { self.lemma_wf(); }
        let mut result = String::new();
        let mut i: usize = 0;
        while i < n
            invariant
                self.wf(),
                i <= n,
                self.offset() + i <= self.text().len(),
                result@ == self.text().subrange(self.offset() as int, self.offset() + i),
            decreases n - i,
        {
            match self.peek_nth(i) {
                Some(ch) => {
                    string_push(&mut result, ch);
                    proof { lemma_subrange_push(self.text(), self.offset() as int, self.offset() + i); }
                    i += 1;
                },
                None => {
                    return result;
                },
            }
        }
        result
    }

    /// Does a term end at the cursor (see `is_term_boundary`)?
    pub fn at_term_boundary(&self) -> (b: bool)
        requires
            self.wf(),
        ensures
            b == is_term_boundary(self.next_char()),
    {
        match self.peek() {
            None => true,
            Some(c) => c == ',' || c == ';' || c == ')' || c == '}' || c == ']' || c == '|' || c == '⟩',
        }
    }

    /// Is the cursor in the first column of a line?
    pub fn at_line_start(&self) -> (b: bool)
        requires
            self.wf(),
        ensures
            b == (self.pos().column == 1),
    {
        let current_pos = self.position();
        current_pos.column == 1
    }

    /// The placeholder `·`: an atom reading `·` that spans it.
    pub fn cdot_placeholder(&mut self) -> (r: ParserResult<Syntax>)
        requires
            old(self).wf(),
        ensures
            final(self).wf(),
            old(self).next_char() == Some('·') ==> {
                &&& final(self).offset() == old(self).offset() + 1
                &&& r matches Ok(s) && s matches Syntax::Atom(a) && a.value@ == "·"@ && a.range
                    == range_at(old(self).text(), old(self).offset(), old(self).offset() + 1)
            },
            old(self).next_char() != Some('·') ==> {
                &&& final(self).offset() == old(self).offset()
                &&& r matches Err(e) && expect_error(*e, old(self).text(), old(self).offset() as int, '·')
            },
    {
        let start = self.position();
        match self.expect_char('·') {
            Ok(()) => {},
            Err(e) => {
                return Err(e);
            },
        }
        let range = self.input().range_from(start);
        proof { reveal_strlit("·"); }
        Ok(self.create_atom(range, String::from_str("·")))
    }
}

} // verus!
