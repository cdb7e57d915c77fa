//! Binder groups `(x y : α)`, `{α : Type}` and `[inst : Functor F]`, whose
//! types a term parser given by the caller reads.
use vstd::prelude::*;
use crate::error::{ParseError, ParserResult, is_expected};
use crate::interpolation::TermCall;
use crate::lexical::{is_id_start, spec_is_id_start};
use crate::literals::expect_error;
use crate::parser::{Parser, ident_at, lemma_ident_at};
use crate::scan::{lemma_trivia_end, lemma_scan_unique, trivia_end, ws};
use crate::syntax::{pos_at, range_at, Syntax, SyntaxKind};

verus! {

/// The closing bracket and the node kind of a binder that opens with `c`.
pub open spec fn binder_bracket(c: char) -> Option<(char, SyntaxKind)> {
    if c == '(' {
        Some((')', SyntaxKind::LeftParen))
    } else if c == '{' {
        Some(('}', SyntaxKind::LeftBrace))
    } else if c == '[' {
        Some((']', SyntaxKind::LeftBracket))
    } else {
        None
    }
}

/// The names that a binder lists from `k` on: identifiers, each followed
/// by whitespace and comments, while one starts; and where they end.
pub open spec fn binder_names(t: Seq<char>, k: int) -> (Seq<Seq<char>>, int)
    decreases t.len() - k,
{
    if 0 <= k < t.len() && spec_is_id_start(t[k]) {
        match ident_at(t, k) {
            Some((e, name)) => {
                let s = trivia_end(t, e);
                if k < s <= t.len() {
                    let rest = binder_names(t, s);
                    (seq![name] + rest.0, rest.1)
                } else {
                    (Seq::empty(), k)
                }
            },
            None => (Seq::empty(), k),
        }
    } else {
        (Seq::empty(), k)
    }
}

/// The children are atoms reading as `names`, then, if given, `ty`.
pub open spec fn binder_children(cs: Seq<Syntax>, names: Seq<Seq<char>>, ty: Option<Syntax>) -> bool {
    &&& cs.len() == names.len() + if ty is Some { 1int } else { 0int }
    &&& forall|k: int| 0 <= k < names.len() ==> ((#[trigger] cs[k]) matches Syntax::Atom(a) && a.value@ == names[k])
    &&& ty matches Some(x) ==> cs[names.len() as int] == x
}

/// The end of a binder whose type the call `c` read (or none was read,
/// with the cursor at `n`): whitespace and comments, then `close` must
/// follow; the result is a node of `kind` spanning from `i`.
pub open spec fn binder_close(
    t: Seq<char>,
    i: int,
    n: int,
    close: char,
    kind: SyntaxKind,
    names: Seq<Seq<char>>,
    ty: Option<Syntax>,
    q: Parser,
    r: ParserResult<Syntax>,
) -> bool {
    if n < t.len() && t[n] == close {
        &&& q.offset() == n + 1
        &&& r matches Ok(s) && s matches Syntax::Node(x) && {
            &&& x.kind == kind
            &&& x.range == range_at(t, i as nat, (n + 1) as nat)
            &&& binder_children(x.children@, names, ty)
        }
    } else {
        &&& q.offset() == n
        &&& r matches Err(e) && expect_error(*e, t, n, close)
    }
}

/// The rest of a binder after the term call `c` that read its type (or
/// the whole of it): a failed call fails the binder; else see
/// `binder_close`.
pub open spec fn after_type(
    t: Seq<char>,
    i: int,
    c: TermCall,
    close: char,
    kind: SyntaxKind,
    names: Seq<Seq<char>>,
    q: Parser,
    r: ParserResult<Syntax>,
) -> bool {
    match c.result {
        Err(e) => q.offset() == c.end && r == Err::<Syntax, Box<ParseError>>(e),
        Ok(ty) => binder_close(t, i, trivia_end(t, c.end), close, kind, names, Some(ty), q, r),
    }
}

/// What `binder_group` returns from `p`, given the calls of the term
/// parser. `(` and `{` open a group of names, each an identifier, with an
/// optional `: type`; `[` opens an instance binder, which must start with
/// an identifier: `[name : type]`, or else `[term]` read from that
/// identifier on. Whitespace and comments are skipped between the parts.
pub open spec fn binder_result(p: Parser, q: Parser, r: ParserResult<Syntax>, calls: Seq<TermCall>) -> bool {
    let t = p.text();
    let i = p.offset() as int;
    let j = trivia_end(t, i + 1);
    &&& q.text() == t
    &&& match if i < t.len() { binder_bracket(t[i]) } else { None } {
        None => {
            &&& calls.len() == 0
            &&& q.offset() == i
            &&& r matches Err(e) && is_expected(*e, "binder"@, pos_at(t, i as nat))
        },
        Some((close, kind)) => if kind == SyntaxKind::LeftBracket {
            if !(j < t.len() && spec_is_id_start(t[j])) {
                &&& calls.len() == 0
                &&& q.offset() == j
                &&& r matches Err(e) && is_expected(*e, "instance implicit term"@, pos_at(t, j as nat))
            } else {
                let e = ident_at(t, j).unwrap().0;
                let name = ident_at(t, j).unwrap().1;
                let s = trivia_end(t, e);
                &&& calls.len() == 1
                &&& if s < t.len() && t[s] == ':' {
                    &&& calls[0].start == trivia_end(t, s + 1)
                    &&& after_type(t, i, calls[0], close, kind, seq![name], q, r)
                } else {
                    &&& calls[0].start == j
                    &&& after_type(t, i, calls[0], close, kind, Seq::empty(), q, r)
                }
            }
        } else {
            let (names, s) = binder_names(t, j);
            if s < t.len() && t[s] == ':' {
                &&& calls.len() == 1
                &&& calls[0].start == trivia_end(t, s + 1)
                &&& after_type(t, i, calls[0], close, kind, names, q, r)
            } else {
                &&& calls.len() == 0
                &&& binder_close(t, i, s, close, kind, names, None, q, r)
            }
        },
    }
}

proof fn lemma_binder_names(t: Seq<char>, k: int)
    requires
        0 <= k <= t.len(),
    ensures
        k <= binder_names(t, k).1 <= t.len(),
        trivia_end(t, k) == k ==> trivia_end(t, binder_names(t, k).1) == binder_names(t, k).1,
    decreases t.len() - k,
{
    if 0 <= k < t.len() && spec_is_id_start(t[k]) {
        lemma_ident_at(t, k);
        match ident_at(t, k) {
            Some((e, name)) => {
                lemma_trivia_end(t, e);
                let s = trivia_end(t, e);
                lemma_trivia_idem(t, e);
                lemma_binder_names(t, s);
            },
            None => {},
        }
    }
}

/// Where trivia end, no more trivia start.
pub proof fn lemma_trivia_idem(t: Seq<char>, i: int)
    requires
        0 <= i <= t.len(),
    ensures
        trivia_end(t, trivia_end(t, i)) == trivia_end(t, i),
{
    lemma_trivia_end(t, i);
    let j = trivia_end(t, i);
    lemma_scan_unique(t, j, j, ws());
}

/// Does an identifier character that may start a name stand at the
/// cursor?
fn next_is_id_start(p: &Parser) -> (b: bool)
    requires
        p.wf(),
    ensures
        b == (p.offset() < p.text().len() && spec_is_id_start(p.text()[p.offset() as int])),
{
    match p.peek() {
        Some(c) => is_id_start(c),
        None => false,
    }
}

impl Parser {
    /// An instance-implicit binder `[Monad m]` or any binder group at the
    /// cursor: what `binder_group` reads (see `binder_result`).
    pub fn inst_implicit_term<F>(&mut self, term: F) -> (r: ParserResult<Syntax>) where
        F: Fn(&mut Parser) -> ParserResult<Syntax>,
        requires
            old(self).wf(),
            forall|q: &mut Parser| q.wf() ==> term.requires((q,)),
            forall|q: &mut Parser, x: ParserResult<Syntax>|
                term.ensures((q,), x) ==> {
                    &&& final(q).wf()
                    &&& final(q).text() == q.text()
                    &&& final(q).offset() >= q.offset()
                },
        ensures
            final(self).wf(),
            r is Ok ==> final(self).offset() > old(self).offset(),
            exists|calls: Seq<TermCall>|
                #![trigger binder_result(*old(self), *final(self), r, calls)]
                {
                    &&& binder_result(*old(self), *final(self), r, calls)
                    &&& forall|j: int|
                        #![trigger calls[j]]
                        0 <= j < calls.len() ==> exists|q: &mut Parser|
                            #![trigger term.ensures((q,), calls[j].result)]
                            {
                                &&& q.text() == old(self).text()
                                &&& q.offset() == calls[j].start
                                &&& final(q).offset() == calls[j].end
                                &&& term.ensures((q,), calls[j].result)
                            }
                },
    {
        self.binder_group(term)
    }

    /// Parses a binder group at the cursor, reading its type with `term`
    /// (see `binder_result`; the calls are ones that `term` can make).
    pub fn binder_group<F>(&mut self, term: F) -> (r: ParserResult<Syntax>) where
        F: Fn(&mut Parser) -> ParserResult<Syntax>,
        requires
            old(self).wf(),
            forall|q: &mut Parser| q.wf() ==> term.requires((q,)),
            forall|q: &mut Parser, x: ParserResult<Syntax>|
                term.ensures((q,), x) ==> {
                    &&& final(q).wf()
                    &&& final(q).text() == q.text()
                    &&& final(q).offset() >= q.offset()
                },
        ensures
            final(self).wf(),
            r is Ok ==> final(self).offset() > old(self).offset(),
            exists|calls: Seq<TermCall>|
                #![trigger binder_result(*old(self), *final(self), r, calls)]
                {
                    &&& binder_result(*old(self), *final(self), r, calls)
                    &&& forall|j: int|
                        #![trigger calls[j]]
                        0 <= j < calls.len() ==> exists|q: &mut Parser|
                            #![trigger term.ensures((q,), calls[j].result)]
                            {
                                &&& q.text() == old(self).text()
                                &&& q.offset() == calls[j].start
                                &&& final(q).offset() == calls[j].end
                                &&& term.ensures((q,), calls[j].result)
                            }
                },
    {
        proof { self.lemma_wf(); }
        let ghost t = self.text();
        let ghost i = self.offset() as int;
        let start = self.position();
        let (close_delim, binder_kind) = match self.peek() {
            Some('(') => (')', SyntaxKind::LeftParen),
            Some('{') => ('}', SyntaxKind::LeftBrace),
            Some('[') => (']', SyntaxKind::LeftBracket),
            _ => {
                let err = ParseError::expected("binder", start);
                proof {
                    assert(binder_result(*old(self), *self, Err::<Syntax, Box<ParseError>>(err), Seq::empty()));
                }
                return Err(err);
            },
        };
        self.advance();
        self.skip_whitespace();
        proof {
            lemma_trivia_end(t, i + 1);
            self.lemma_wf();
        }
        let ghost j = self.offset() as int;
        if binder_kind == SyntaxKind::LeftBracket {
            if !(match self.peek() {
                Some(c) => is_id_start(c),
                None => false,
            }) {
                let err = ParseError::expected("instance implicit term", self.position());
                proof {
                    assert(binder_result(*old(self), *self, Err::<Syntax, Box<ParseError>>(err), Seq::empty()));
                }
                return Err(err);
            }
            proof {
                lemma_ident_at(t, j);
                lemma_trivia_idem(t, i + 1);
            }
            self.save_position();
            let first_id = match self.identifier() {
                Ok(x) => x,
                Err(err) => {
                    proof {
                        assert(false);
                    }
                    return Err(err);
                },
            };
            let ghost e = self.offset() as int;
            self.skip_whitespace();
            proof {
                lemma_trivia_end(t, e);
                self.lemma_wf();
            }
            let ghost s = self.offset() as int;
            if self.peek() == Some(':') {
                self.commit_position();
                self.advance();
                self.skip_whitespace();
                proof {
                    lemma_trivia_end(t, s + 1);
                    self.lemma_wf();
                }
                let ghost m = self.offset() as int;
                let res = term(self);
                proof { self.lemma_wf(); }
                let ghost call = TermCall { start: m, end: self.offset() as int, result: res };
                let ty = match res {
                    Ok(x) => x,
                    Err(err) => {
                        proof {
                            assert(seq![call][0] == call);
                            assert(binder_result(*old(self), *self, Err::<Syntax, Box<ParseError>>(err), seq![call]));
                        }
                        return Err(err);
                    },
                };
                let ghost gty = ty;
                self.skip_whitespace();
                proof {
                    lemma_trivia_end(t, call.end);
                    self.lemma_wf();
                }
                match self.expect_char(close_delim) {
                    Ok(()) => {},
                    Err(err) => {
                        proof {
                            assert(seq![call][0] == call);
                            assert(binder_result(*old(self), *self, Err::<Syntax, Box<ParseError>>(err), seq![call]));
                        }
                        return Err(err);
                    },
                }
                let range = self.input().range_from(start);
                let ghost fid = first_id;
                let mut children: Vec<Syntax> = Vec::new();
                children.push(first_id);
                children.push(ty);
                let node = self.create_node(binder_kind, range, children);
                proof {
                    assert(seq![call][0] == call);
                    assert(binder_children(children@, seq![ident_at(t, j).unwrap().1], Some(gty)));
                    assert(binder_result(*old(self), *self, Ok::<Syntax, Box<ParseError>>(node), seq![call]));
                }
                Ok(node)
            } else {
                self.restore_position();
                proof { self.lemma_wf(); }
                let ghost m = self.offset() as int;
                let res = term(self);
                proof { self.lemma_wf(); }
                let ghost call = TermCall { start: m, end: self.offset() as int, result: res };
                let ty = match res {
                    Ok(x) => x,
                    Err(err) => {
                        proof {
                            assert(seq![call][0] == call);
                            assert(binder_result(*old(self), *self, Err::<Syntax, Box<ParseError>>(err), seq![call]));
                        }
                        return Err(err);
                    },
                };
                let ghost gty = ty;
                self.skip_whitespace();
                proof {
                    lemma_trivia_end(t, call.end);
                    self.lemma_wf();
                }
                match self.expect_char(close_delim) {
                    Ok(()) => {},
                    Err(err) => {
                        proof {
                            assert(seq![call][0] == call);
                            assert(binder_result(*old(self), *self, Err::<Syntax, Box<ParseError>>(err), seq![call]));
                        }
                        return Err(err);
                    },
                }
                let range = self.input().range_from(start);
                let mut children: Vec<Syntax> = Vec::new();
                children.push(ty);
                let node = self.create_node(binder_kind, range, children);
                proof {
                    assert(seq![call][0] == call);
                    assert(binder_children(children@, Seq::empty(), Some(gty)));
                    assert(binder_result(*old(self), *self, Ok::<Syntax, Box<ParseError>>(node), seq![call]));
                }
                Ok(node)
            }
        } else {
            let ghost mut names: Seq<Seq<char>> = Seq::empty();
            let mut children: Vec<Syntax> = Vec::new();
            proof {
                lemma_trivia_idem(t, i + 1);
                lemma_binder_names(t, j);
            }
            while next_is_id_start(self)
                invariant
                    self.wf(),
                    t == self.text(),
                    t == old(self).text(),
                    i == old(self).offset(),
                    j == trivia_end(t, i + 1),
                    j <= self.offset() <= t.len(),
                    trivia_end(t, self.offset() as int) == self.offset(),
                    binder_names(t, j) == ((names + binder_names(t, self.offset() as int).0, binder_names(t, self.offset() as int).1)),
                    children@.len() == names.len(),
                    forall|k: int| 0 <= k < names.len() ==> ((#[trigger] children@[k]) matches Syntax::Atom(a) && a.value@ == names[k]),
                decreases t.len() - self.offset(),
            {
                proof { self.lemma_wf(); }
                let ghost k0 = self.offset() as int;
                proof { lemma_ident_at(t, k0); }
                let id = match self.identifier() {
                    Ok(x) => x,
                    Err(err) => {
                        proof {
                            assert(false);
                        }
                        return Err(err);
                    },
                };
                let ghost gid = id;
                let ghost e = self.offset() as int;
                children.push(id);
                self.skip_whitespace();
                proof {
                    lemma_trivia_end(t, e);
                    lemma_trivia_idem(t, e);
                    let name = ident_at(t, k0).unwrap().1;
                    assert(binder_names(t, k0) == ((seq![name] + binder_names(t, self.offset() as int).0, binder_names(t, self.offset() as int).1)));
                    assert(names + (seq![name] + binder_names(t, self.offset() as int).0) =~= names.push(name) + binder_names(t, self.offset() as int).0);
                    names = names.push(name);
                    assert(children@[children@.len() - 1] == gid);
                }
            }
            proof {
                let s = self.offset() as int;
                assert(binder_names(t, s) == (Seq::<Seq<char>>::empty(), s));
                assert(names + Seq::<Seq<char>>::empty() =~= names);
            }
            let ghost s = self.offset() as int;
            let mut ty: Option<Syntax> = None;
            let ghost mut calls: Seq<TermCall> = Seq::empty();
            if self.peek() == Some(':') {
                self.advance();
                self.skip_whitespace();
                proof {
                    lemma_trivia_end(t, s + 1);
                    self.lemma_wf();
                }
                let ghost m = self.offset() as int;
                let res = term(self);
                proof { self.lemma_wf(); }
                let ghost call = TermCall { start: m, end: self.offset() as int, result: res };
                proof {
                    calls = seq![call];
                    assert(calls[0] == call);
                }
                match res {
                    Ok(x) => {
                        ty = Some(x);
                    },
                    Err(err) => {
                        proof {
                            assert(binder_result(*old(self), *self, Err::<Syntax, Box<ParseError>>(err), calls));
                        }
                        return Err(err);
                    },
                }
            }
            let ghost before_ws = self.offset() as int;
            self.skip_whitespace();
            proof {
                lemma_trivia_end(t, before_ws);
                self.lemma_wf();
            }
            match self.expect_char(close_delim) {
                Ok(()) => {},
                Err(err) => {
                    proof {
                        assert(binder_result(*old(self), *self, Err::<Syntax, Box<ParseError>>(err), calls));
                    }
                    return Err(err);
                },
            }
            let range = self.input().range_from(start);
            let ghost gty = ty;
            match ty {
                Some(x) => {
                    children.push(x);
                },
                None => {},
            }
            let ghost ch = children@;
            let node = self.create_node(binder_kind, range, children);
            proof {
                assert(binder_children(ch, names, gty));
                assert(binder_result(*old(self), *self, Ok::<Syntax, Box<ParseError>>(node), calls));
            }
            Ok(node)
        }
    }
}

} // verus!
