//! Projections and method calls after a term: `x.1`, `p.fst`,
//! `xs.map f`. An atom parser and a test for a binary operator at the
//! cursor, both given by the caller, read the arguments of method calls
//! and tell where they stop.
use vstd::prelude::*;
use crate::attributes::{ErrSpec, Lex, err_is, lemma_no_trivia_at_id_start, lemma_number_lex};
use crate::error::{ParseError, ParserResult};
use crate::interpolation::TermCall;
use crate::lexical::{is_digit, is_id_start, spec_is_digit, spec_is_id_start};
use crate::literals::{Lexed, missing_digits, number_lex};
use crate::parser::{Parser, ident_at, lemma_ident_at};
use crate::scan::{lemma_trivia_end, trivia_end};
use crate::syntax::{range_at, Syntax, SyntaxKind};
use crate::terms::is_term_boundary;

verus! {

/// A call of the operator test: where the cursor stood, the parser it was
/// asked of, and the answer.
pub ghost struct OpCall {
    pub at: int,
    pub asked: Parser,
    pub answer: bool,
}

/// The character at `k`, if any.
pub open spec fn char_at(t: Seq<char>, k: int) -> Option<char> {
    if 0 <= k < t.len() {
        Some(t[k])
    } else {
        None
    }
}

/// The field after a `.` at `f`: a number, or an identifier; anything else
/// is not a field.
pub open spec fn field_lex(t: Seq<char>, f: int) -> Lex {
    if 0 <= f < t.len() && spec_is_digit(t[f]) {
        match number_lex(t, f) {
            Lexed::Body(v, e) => Lex::Token(v, e),
            Lexed::Invalid(e) => Lex::Fail(ErrSpec::Custom(missing_digits(t, f)), e),
        }
    } else if 0 <= f < t.len() && spec_is_id_start(t[f]) {
        match ident_at(t, f) {
            Some((e, name)) => Lex::Token(name, e),
            None => Lex::Fail(ErrSpec::Expected("identifier"@), f),
        }
    } else {
        Lex::Fail(ErrSpec::Expected("field name or number"@), f)
    }
}

/// Every character of `v` is a decimal digit.
pub open spec fn all_digits(v: Seq<char>) -> bool {
    forall|j: int| 0 <= j < v.len() ==> spec_is_digit(#[trigger] v[j])
}

/// How reading the arguments of a method call ends.
pub ghost enum ArgsEnd {
    /// With these arguments, the cursor at the index given, and the calls
    /// of both kinds left.
    Args(Seq<Syntax>, int, Seq<TermCall>, Seq<OpCall>),
    /// The calls do not fit the text.
    Stuck,
}

/// The arguments of a method call from `a`, which stands after whitespace
/// and comments: an atom read by the next atom call (where it fails, the
/// arguments end and the cursor stays at `a`), then whitespace and
/// comments; a term boundary or, asked next, a binary operator ends them.
pub open spec fn method_args(t: Seq<char>, a: int, acalls: Seq<TermCall>, ocalls: Seq<OpCall>, args: Seq<Syntax>) -> ArgsEnd
    decreases t.len() - a,
{
    if acalls.len() == 0 || acalls[0].start != a {
        ArgsEnd::Stuck
    } else {
        let rest = acalls.drop_first();
        match acalls[0].result {
            Err(_) => ArgsEnd::Args(args, a, rest, ocalls),
            Ok(x) => {
                let a2 = trivia_end(t, acalls[0].end);
                if is_term_boundary(char_at(t, a2)) {
                    ArgsEnd::Args(args.push(x), a2, rest, ocalls)
                } else if ocalls.len() == 0 || ocalls[0].at != a2 {
                    ArgsEnd::Stuck
                } else if ocalls[0].answer {
                    ArgsEnd::Args(args.push(x), a2, rest, ocalls.drop_first())
                } else if a < a2 <= t.len() {
                    method_args(t, a2, rest, ocalls.drop_first(), args.push(x))
                } else {
                    ArgsEnd::Stuck
                }
            },
        }
    }
}

/// One projection: where its `.` stands, the field's text and where it
/// ends, the arguments of a method call (none for a projection), and
/// where it ends.
pub ghost struct ProjStep {
    pub dot: int,
    pub field: Seq<char>,
    pub field_end: int,
    pub args: Seq<Syntax>,
    pub end: int,
}

/// How reading projections ends.
pub ghost enum ProjEnd {
    /// With these projections, the cursor at the index given, and the
    /// calls of both kinds left.
    Done(Seq<ProjStep>, int, Seq<TermCall>, Seq<OpCall>),
    /// With the error given at the index given.
    Fail(ErrSpec, int),
    /// The calls do not fit the text.
    Stuck,
}

/// Projections from `k` while a `.` not followed by another `.` stands
/// there: the `.`, a field (see `field_lex`), whitespace and comments;
/// unless the field is all digits or a term boundary follows, the
/// arguments of a method call (see `method_args`), tried from a saved
/// position that is restored where there are none.
pub open spec fn proj_chain(t: Seq<char>, k: int, acalls: Seq<TermCall>, ocalls: Seq<OpCall>, steps: Seq<ProjStep>) -> ProjEnd
    decreases t.len() - k,
{
    if !(0 <= k && k + 1 < t.len() && t[k] == '.' && t[k + 1] != '.') {
        ProjEnd::Done(steps, k, acalls, ocalls)
    } else {
        match field_lex(t, k + 1) {
            Lex::Token(v, fe) => {
                let s = trivia_end(t, fe);
                if all_digits(v) || is_term_boundary(char_at(t, s)) {
                    if k < s <= t.len() {
                        proj_chain(t, s, acalls, ocalls, steps.push(ProjStep { dot: k, field: v, field_end: fe, args: Seq::empty(), end: s }))
                    } else {
                        ProjEnd::Stuck
                    }
                } else {
                    match method_args(t, s, acalls, ocalls, Seq::empty()) {
                        ArgsEnd::Args(args, p, ar, or) => {
                            let e = if args.len() == 0 { s } else { p };
                            if k < e <= t.len() {
                                proj_chain(t, e, ar, or, steps.push(ProjStep { dot: k, field: v, field_end: fe, args, end: e }))
                            } else {
                                ProjEnd::Stuck
                            }
                        },
                        ArgsEnd::Stuck => ProjEnd::Stuck,
                    }
                }
            },
            Lex::Fail(s, o) => if acalls.len() == 0 && ocalls.len() == 0 {
                ProjEnd::Fail(s, o)
            } else {
                ProjEnd::Stuck
            },
            Lex::Paren => ProjEnd::Stuck,
        }
    }
}

/// `s` is `expr` with the projections `steps` applied in order: each an
/// `App` node of the term so far, the field and the arguments where it is
/// a method call, else a `Projection` node of the term so far and the
/// field, spanning from its `.` to its end; the field is an atom spanning
/// its text.
pub open spec fn chain_matches(s: Syntax, expr: Syntax, steps: Seq<ProjStep>, t: Seq<char>) -> bool
    decreases steps.len(),
{
    if steps.len() == 0 {
        s == expr
    } else {
        let st = steps.last();
        &&& s matches Syntax::Node(n) && {
            let cs = n.children@;
            &&& n.kind == if st.args.len() > 0 { SyntaxKind::App } else { SyntaxKind::Projection }
            &&& n.range == range_at(t, st.dot as nat, st.end as nat)
            &&& cs.len() == 2 + st.args.len()
            &&& chain_matches(cs[0], expr, steps.drop_last(), t)
            &&& cs[1] matches Syntax::Atom(a) && a.value@ == st.field && a.range == range_at(t, (st.dot + 1) as nat, st.field_end as nat)
            &&& cs.subrange(2, cs.len() as int) == st.args
        }
    }
}

/// Reading method arguments with more calls to come ends as with the calls
/// it uses, handing the others on.
pub proof fn lemma_method_args_frame(
    t: Seq<char>,
    a: int,
    ac: Seq<TermCall>,
    oc: Seq<OpCall>,
    args: Seq<Syntax>,
    ar: Seq<TermCall>,
    or: Seq<OpCall>,
)
    ensures
        method_args(t, a, ac, oc, args) matches ArgsEnd::Args(x, p, r1, r2) ==> method_args(t, a, ac + ar, oc + or, args)
            == ArgsEnd::Args(x, p, r1 + ar, r2 + or),
    decreases t.len() - a,
{
    if ac.len() > 0 && ac[0].start == a {
        assert((ac + ar)[0] == ac[0]);
        assert((ac + ar).drop_first() =~= ac.drop_first() + ar);
        match ac[0].result {
            Err(_) => {},
            Ok(x) => {
                let a2 = trivia_end(t, ac[0].end);
                if !is_term_boundary(char_at(t, a2)) && oc.len() > 0 && oc[0].at == a2 {
                    assert((oc + or)[0] == oc[0]);
                    assert((oc + or).drop_first() =~= oc.drop_first() + or);
                    if !oc[0].answer && a < a2 <= t.len() {
                        lemma_method_args_frame(t, a2, ac.drop_first(), oc.drop_first(), args.push(x), ar, or);
                    }
                }
            },
        }
    }
}

/// Reading projections with more calls to come ends as with the calls it
/// uses, handing the others on.
pub proof fn lemma_proj_chain_frame(
    t: Seq<char>,
    k: int,
    ac: Seq<TermCall>,
    oc: Seq<OpCall>,
    steps: Seq<ProjStep>,
    ar: Seq<TermCall>,
    or: Seq<OpCall>,
)
    ensures
        proj_chain(t, k, ac, oc, steps) matches ProjEnd::Done(x, e, r1, r2) ==> proj_chain(t, k, ac + ar, oc + or, steps)
            == ProjEnd::Done(x, e, r1 + ar, r2 + or),
    decreases t.len() - k,
{
    if 0 <= k && k + 1 < t.len() && t[k] == '.' && t[k + 1] != '.' {
        match field_lex(t, k + 1) {
            Lex::Token(v, fe) => {
                let s = trivia_end(t, fe);
                if all_digits(v) || is_term_boundary(char_at(t, s)) {
                    if k < s <= t.len() {
                        lemma_proj_chain_frame(t, s, ac, oc, steps.push(ProjStep { dot: k, field: v, field_end: fe, args: Seq::empty(), end: s }), ar, or);
                    }
                } else {
                    lemma_method_args_frame(t, s, ac, oc, Seq::empty(), ar, or);
                    match method_args(t, s, ac, oc, Seq::empty()) {
                        ArgsEnd::Args(args, p, a1, o1) => {
                            let e = if args.len() == 0 { s } else { p };
                            if k < e <= t.len() {
                                lemma_proj_chain_frame(t, e, a1, o1, steps.push(ProjStep { dot: k, field: v, field_end: fe, args, end: e }), ar, or);
                            }
                        },
                        ArgsEnd::Stuck => {},
                    }
                }
            },
            _ => {},
        }
    }
}

/// The arguments read so far are `args`, at `a`: still reading while
/// `state` is 0, else ended there.
pub open spec fn args_from(t: Seq<char>, a: int, acalls: Seq<TermCall>, ocalls: Seq<OpCall>, args: Seq<Syntax>, state: u8) -> ArgsEnd {
    if state == 0 {
        method_args(t, a, acalls, ocalls, args)
    } else {
        ArgsEnd::Args(args, a, acalls, ocalls)
    }
}

/// Is every character of `s` a decimal digit?
fn str_all_digits(s: &str) -> (b: bool)
    ensures
        b == all_digits(s@),
{
    let n = s.unicode_len();
    let mut i: usize = 0;
    while i < n
        invariant
            n == s@.len(),
            i <= n,
            forall|j: int| 0 <= j < i ==> spec_is_digit(#[trigger] s@[j]),
        decreases n - i,
    {
        if !is_digit(s.get_char(i)) {
            return false;
        }
        i += 1;
    }
    true
}

/// Is `x` an atom whose text is all digits?
fn is_numeric_field(x: &Syntax) -> (b: bool)
    ensures
        b == (x matches Syntax::Atom(a) && all_digits(a.value@)),
{
    match x {
        Syntax::Atom(a) => str_all_digits(a.value.as_str()),
        _ => false,
    }
}

impl Parser {
    /// Does a projection start at the cursor: a `.` not followed by
    /// another `.`, nor by the end of the text?
    pub fn at_projection(&self) -> (b: bool)
        requires
            self.wf(),
        ensures
            b == (self.offset() + 1 < self.text().len() && self.text()[self.offset() as int] == '.'
                && self.text()[self.offset() + 1int] != '.'),
    {
        if self.peek() != Some('.') {
            return false;
        }
        match self.peek_nth(1) {
            Some(c) => c != '.',
            None => false,
        }
    }

    /// Projections and method calls after `expr` (see
    /// `projections_result`; the atom calls are ones that `atom` can make,
    /// the operator calls answers that `binop` can give). `atom` must
    /// leave the saved positions as they were.
    #[verifier::spinoff_prover]
    #[verifier::rlimit(100)]
    pub fn parse_projections<A, B>(&mut self, expr: Syntax, atom: A, binop: B) -> (r: ParserResult<Syntax>) where
        A: Fn(&mut Parser) -> ParserResult<Syntax> + Copy,
        B: Fn(&Parser) -> bool + Copy,
        requires
            old(self).wf(),
            forall|q: &mut Parser| q.wf() ==> atom.requires((q,)),
            forall|q: &mut Parser, x: ParserResult<Syntax>|
                atom.ensures((q,), x) ==> {
                    &&& final(q).wf()
                    &&& final(q).text() == q.text()
                    &&& final(q).offset() >= q.offset()
                    &&& final(q).saved() == q.saved()
                    &&& x is Ok ==> final(q).offset() > q.offset()
                },
            forall|q: &Parser| q.wf() ==> binop.requires((q,)),
        ensures
            final(self).wf(),
            r is Ok ==> final(self).offset() >= old(self).offset(),
            final(self).saved() == old(self).saved(),
            exists|acalls: Seq<TermCall>, ocalls: Seq<OpCall>|
                #![trigger projections_result(*old(self), *final(self), r, expr, acalls, ocalls)]
                {
                    &&& projections_result(*old(self), *final(self), r, expr, acalls, ocalls)
                    &&& forall|j: int|
                        #![trigger acalls[j]]
                        0 <= j < acalls.len() ==> exists|q: &mut Parser|
                            #![trigger atom.ensures((q,), acalls[j].result)]
                            {
                                &&& q.text() == old(self).text()
                                &&& q.offset() == acalls[j].start
                                &&& final(q).offset() == acalls[j].end
                                &&& atom.ensures((q,), acalls[j].result)
                            }
                    &&& forall|j: int|
                        #![trigger ocalls[j]]
                        0 <= j < ocalls.len() ==> {
                            &&& ocalls[j].asked.text() == old(self).text()
                            &&& ocalls[j].asked.offset() == ocalls[j].at
                            &&& binop.ensures((&ocalls[j].asked,), ocalls[j].answer)
                        }
                },
    {
        proof { self.lemma_wf(); }
        let ghost t = self.text();
        let ghost k0 = self.offset() as int;
        let ghost expr0 = expr;
        let mut cur = expr;
        let ghost mut acalls: Seq<TermCall> = Seq::empty();
        let ghost mut ocalls: Seq<OpCall> = Seq::empty();
        let ghost mut steps: Seq<ProjStep> = Seq::empty();
        proof {
            assert forall|ar: Seq<TermCall>| #[trigger] (acalls + ar) == ar by {
                assert(acalls + ar =~= ar);
            }
            assert forall|or: Seq<OpCall>| #[trigger] (ocalls + or) == or by {
                assert(ocalls + or =~= or);
            }
        }
        while self.at_projection()
            invariant
                self.wf(),
                t == self.text(),
                t == old(self).text(),
                k0 == old(self).offset(),
                k0 <= self.offset() <= t.len(),
                self.saved() == old(self).saved(),
                chain_matches(cur, expr0, steps, t),
                expr0 == expr,
                forall|q: &mut Parser| q.wf() ==> atom.requires((q,)),
                forall|q: &mut Parser, x: ParserResult<Syntax>|
                    atom.ensures((q,), x) ==> {
                        &&& final(q).wf()
                        &&& final(q).text() == q.text()
                        &&& final(q).offset() >= q.offset()
                        &&& final(q).saved() == q.saved()
                        &&& x is Ok ==> final(q).offset() > q.offset()
                    },
                forall|q: &Parser| q.wf() ==> binop.requires((q,)),
                forall|ar: Seq<TermCall>, or: Seq<OpCall>|
                    #![trigger proj_chain(t, k0, acalls + ar, ocalls + or, Seq::<ProjStep>::empty())]
                    proj_chain(t, k0, acalls + ar, ocalls + or, Seq::<ProjStep>::empty())
                        == proj_chain(t, self.offset() as int, ar, or, steps),
                forall|jj: int|
                    #![trigger acalls[jj]]
                    0 <= jj < acalls.len() ==> exists|q: &mut Parser|
                        #![trigger atom.ensures((q,), acalls[jj].result)]
                        {
                            &&& q.text() == t
                            &&& q.offset() == acalls[jj].start
                            &&& final(q).offset() == acalls[jj].end
                            &&& atom.ensures((q,), acalls[jj].result)
                        },
                forall|jj: int|
                    #![trigger ocalls[jj]]
                    0 <= jj < ocalls.len() ==> {
                        &&& ocalls[jj].asked.text() == t
                        &&& ocalls[jj].asked.offset() == ocalls[jj].at
                        &&& binop.ensures((&ocalls[jj].asked,), ocalls[jj].answer)
                    },
            decreases t.len() - self.offset(),
        {
            proof { self.lemma_wf(); }
            let ghost k = self.offset() as int;
            let dot_pos = self.position();
            self.advance();
            proof {
                reveal_strlit("field name or number");
                assert(acalls + Seq::<TermCall>::empty() =~= acalls);
                assert(ocalls + Seq::<OpCall>::empty() =~= ocalls);
            }
            let field_res = match self.peek() {
                Some(c) => {
                    if is_digit(c) {
                        self.number()
                    } else if is_id_start(c) {
                        proof { lemma_no_trivia_at_id_start(t, k + 1); }
                        self.identifier()
                    } else {
                        Err(ParseError::expected("field name or number", self.position()))
                    }
                },
                None => Err(ParseError::expected("field name or number", self.position())),
            };
            proof {
                self.lemma_wf();
                if 0 <= k + 1 < t.len() && spec_is_digit(t[k + 1]) {
                    lemma_number_lex(t, k + 1);
                } else if 0 <= k + 1 < t.len() && spec_is_id_start(t[k + 1]) {
                    lemma_ident_at(t, k + 1);
                }
            }
            let field = match field_res {
                Ok(f) => f,
                Err(e) => {
                    proof {
                        assert(proj_chain(t, k0, acalls, ocalls, Seq::<ProjStep>::empty())
                            == proj_chain(t, k, Seq::<TermCall>::empty(), Seq::<OpCall>::empty(), steps));
                        match field_lex(t, k + 1) {
                            Lex::Fail(es, o) => {
                                assert(proj_chain(t, k, Seq::<TermCall>::empty(), Seq::<OpCall>::empty(), steps) == ProjEnd::Fail(es, o));
                                assert(self.offset() == o);
                                assert(err_is(*e, es, t, o));
                            },
                            _ => {},
                        }
                        assert(projections_result(*old(self), *self, Err::<Syntax, Box<ParseError>>(e), expr0, acalls, ocalls));
                    }
                    return Err(e);
                },
            };
            let ghost v = match field_lex(t, k + 1) {
                Lex::Token(v, _) => v,
                _ => arbitrary(),
            };
            let ghost fe = self.offset() as int;
            let ghost gfield = field;
            self.skip_whitespace();
            proof {
                lemma_trivia_end(t, fe);
                self.lemma_wf();
            }
            let ghost s0 = self.offset() as int;
            let numeric = is_numeric_field(&field);
            let mut args: Vec<Syntax> = Vec::new();
            let ghost mut ac: Seq<TermCall> = Seq::empty();
            let ghost mut oc: Seq<OpCall> = Seq::empty();
            if !numeric && !self.at_term_boundary() {
                self.save_position();
                let ghost saved1 = self.saved();
                let mut state: u8 = 0;
                proof {
                    assert forall|ar: Seq<TermCall>| #[trigger] (ac + ar) == ar by {
                        assert(ac + ar =~= ar);
                    }
                    assert forall|or: Seq<OpCall>| #[trigger] (oc + or) == or by {
                        assert(oc + or =~= or);
                    }
                }
                while state == 0
                    invariant
                        self.wf(),
                        t == self.text(),
                        s0 <= self.offset() <= t.len(),
                        state <= 2,
                        state == 0 ==> trivia_end(t, self.offset() as int) == self.offset(),
                        self.saved() == saved1,
                        forall|q: &mut Parser| q.wf() ==> atom.requires((q,)),
                        forall|q: &mut Parser, x: ParserResult<Syntax>|
                            atom.ensures((q,), x) ==> {
                                &&& final(q).wf()
                                &&& final(q).text() == q.text()
                                &&& final(q).offset() >= q.offset()
                                &&& final(q).saved() == q.saved()
                                &&& x is Ok ==> final(q).offset() > q.offset()
                            },
                        forall|q: &Parser| q.wf() ==> binop.requires((q,)),
                        forall|ar: Seq<TermCall>, or: Seq<OpCall>|
                            #![trigger method_args(t, s0, ac + ar, oc + or, Seq::<Syntax>::empty())]
                            method_args(t, s0, ac + ar, oc + or, Seq::<Syntax>::empty())
                                == args_from(t, self.offset() as int, ar, or, args@, state),
                        forall|jj: int|
                            #![trigger ac[jj]]
                            0 <= jj < ac.len() ==> exists|q: &mut Parser|
                                #![trigger atom.ensures((q,), ac[jj].result)]
                                {
                                    &&& q.text() == t
                                    &&& q.offset() == ac[jj].start
                                    &&& final(q).offset() == ac[jj].end
                                    &&& atom.ensures((q,), ac[jj].result)
                                },
                        forall|jj: int|
                            #![trigger oc[jj]]
                            0 <= jj < oc.len() ==> {
                                &&& oc[jj].asked.text() == t
                                &&& oc[jj].asked.offset() == oc[jj].at
                                &&& binop.ensures((&oc[jj].asked,), oc[jj].answer)
                            },
                    decreases t.len() - self.offset(), if state == 0 { 1int } else { 0int },
                {
                    proof { self.lemma_wf(); }
                    let ghost a = self.offset() as int;
                    let ghost h0 = args@;
                    self.save_position();
                    let res = atom(self);
                    proof { self.lemma_wf(); }
                    let ghost call = TermCall { start: a, end: self.offset() as int, result: res };
                    proof {
                        assert forall|ar: Seq<TermCall>| #[trigger] (ac.push(call) + ar) == ac + (seq![call] + ar) by {
                            assert(ac.push(call) + ar =~= ac + (seq![call] + ar));
                        }
                        assert forall|ar: Seq<TermCall>| #[trigger] (seq![call] + ar).drop_first() == ar by {
                            assert((seq![call] + ar).drop_first() =~= ar);
                        }
                        assert forall|ar: Seq<TermCall>| #[trigger] (seq![call] + ar)[0] == call by {}
                    }
                    let ghost mut ocall_opt: Option<OpCall> = None;
                    match res {
                        Err(_) => {
                            self.restore_position();
                            state = 2;
                        },
                        Ok(arg) => {
                            self.commit_position();
                            args.push(arg);
                            let ghost e = self.offset() as int;
                            self.skip_whitespace();
                            proof {
                                lemma_trivia_end(t, e);
                                crate::binder::lemma_trivia_idem(t, e);
                                self.lemma_wf();
                            }
                            if self.at_term_boundary() {
                                state = 1;
                            } else {
                                let ghost pq = *self;
                                let b = binop(&*self);
                                proof {
                                    assert(binop.ensures((&pq,), b));
                                    ocall_opt = Some(OpCall { at: self.offset() as int, asked: pq, answer: b });
                                }
                                if b {
                                    state = 1;
                                }
                            }
                        },
                    }
                    proof {
                        self.lemma_wf();
                        let ocs: Seq<OpCall> = match ocall_opt {
                            Some(o) => seq![o],
                            None => Seq::empty(),
                        };
                        assert forall|or: Seq<OpCall>| #[trigger] (oc + ocs + or) == oc + (ocs + or) by {
                            assert(oc + ocs + or =~= oc + (ocs + or));
                        }
                        if ocall_opt is Some {
                            assert forall|or: Seq<OpCall>| #[trigger] (ocs + or).drop_first() == or by {
                                assert((ocs + or).drop_first() =~= or);
                            }
                            assert forall|or: Seq<OpCall>| #[trigger] (ocs + or)[0] == ocs[0] by {}
                        } else {
                            assert forall|or: Seq<OpCall>| #[trigger] (ocs + or) == or by {
                                assert(ocs + or =~= or);
                            }
                        }
                        assert forall|ar: Seq<TermCall>, or: Seq<OpCall>|
                            #![trigger method_args(t, s0, ac.push(call) + ar, oc + ocs + or, Seq::<Syntax>::empty())]
                            method_args(t, s0, ac.push(call) + ar, oc + ocs + or, Seq::<Syntax>::empty())
                                == args_from(t, self.offset() as int, ar, or, args@, state) by {
                            assert(method_args(t, s0, ac + (seq![call] + ar), oc + (ocs + or), Seq::<Syntax>::empty())
                                == method_args(t, a, seq![call] + ar, ocs + or, h0));
                        }
                        assert forall|jj: int| #![trigger (oc + ocs)[jj]] 0 <= jj < (oc + ocs).len() implies {
                            &&& (oc + ocs)[jj].asked.text() == t
                            &&& (oc + ocs)[jj].asked.offset() == (oc + ocs)[jj].at
                            &&& binop.ensures((&(oc + ocs)[jj].asked,), (oc + ocs)[jj].answer)
                        } by {
                            if jj < oc.len() {
                                assert((oc + ocs)[jj] == oc[jj]);
                            } else {
                                assert((oc + ocs)[jj] == ocs[0]);
                            }
                        }
                        ac = ac.push(call);
                        oc = oc + ocs;
                    }
                }
                if args.len() == 0 {
                    self.restore_position();
                } else {
                    self.commit_position();
                }
            }
            proof { self.lemma_wf(); }
            let ghost e = self.offset() as int;
            let ghost gargs = args@;
            let ghost gexpr = cur;
            let range = self.input().range_from(dot_pos);
            let method = args.len() > 0;
            let mut children: Vec<Syntax> = Vec::new();
            children.push(cur);
            children.push(field);
            children.append(&mut args);
            assert(children@ =~= seq![gexpr, gfield] + gargs);
            assert(children@.subrange(2, children@.len() as int) =~= gargs);
            let node = if method {
                self.create_node(SyntaxKind::App, range, children)
            } else {
                self.create_node(SyntaxKind::Projection, range, children)
            };
            let ghost step = ProjStep { dot: k, field: v, field_end: fe, args: gargs, end: e };
            proof {
                self.lemma_wf();
                assert(steps.push(step).drop_last() == steps);
                assert(chain_matches(node, expr0, steps.push(step), t));
                assert forall|ar: Seq<TermCall>, or: Seq<OpCall>|
                    #![trigger proj_chain(t, k0, acalls + ac + ar, ocalls + oc + or, Seq::<ProjStep>::empty())]
                    proj_chain(t, k0, acalls + ac + ar, ocalls + oc + or, Seq::<ProjStep>::empty())
                        == proj_chain(t, self.offset() as int, ar, or, steps.push(step)) by {
                    assert(acalls + ac + ar =~= acalls + (ac + ar));
                    assert(ocalls + oc + or =~= ocalls + (oc + or));
                    assert(proj_chain(t, k0, acalls + (ac + ar), ocalls + (oc + or), Seq::<ProjStep>::empty())
                        == proj_chain(t, k, ac + ar, oc + or, steps));
                }
                assert forall|jj: int| #![trigger (acalls + ac)[jj]] 0 <= jj < (acalls + ac).len() implies exists|q: &mut Parser|
                    #![trigger atom.ensures((q,), (acalls + ac)[jj].result)]
                    {
                        &&& q.text() == t
                        &&& q.offset() == (acalls + ac)[jj].start
                        &&& final(q).offset() == (acalls + ac)[jj].end
                        &&& atom.ensures((q,), (acalls + ac)[jj].result)
                    } by {
                    if jj < acalls.len() {
                        assert((acalls + ac)[jj] == acalls[jj]);
                    } else {
                        assert((acalls + ac)[jj] == ac[jj - acalls.len()]);
                    }
                }
                assert forall|jj: int| #![trigger (ocalls + oc)[jj]] 0 <= jj < (ocalls + oc).len() implies {
                    &&& (ocalls + oc)[jj].asked.text() == t
                    &&& (ocalls + oc)[jj].asked.offset() == (ocalls + oc)[jj].at
                    &&& binop.ensures((&(ocalls + oc)[jj].asked,), (ocalls + oc)[jj].answer)
                } by {
                    if jj < ocalls.len() {
                        assert((ocalls + oc)[jj] == ocalls[jj]);
                    } else {
                        assert((ocalls + oc)[jj] == oc[jj - ocalls.len()]);
                    }
                }
                acalls = acalls + ac;
                ocalls = ocalls + oc;
                steps = steps.push(step);
            }
            cur = node;
        }
        proof {
            assert(acalls + Seq::<TermCall>::empty() =~= acalls);
            assert(ocalls + Seq::<OpCall>::empty() =~= ocalls);
            assert(proj_chain(t, k0, acalls, ocalls, Seq::<ProjStep>::empty())
                == proj_chain(t, self.offset() as int, Seq::<TermCall>::empty(), Seq::<OpCall>::empty(), steps));
            assert(projections_result(*old(self), *self, Ok::<Syntax, Box<ParseError>>(cur), expr0, acalls, ocalls));
        }
        Ok(cur)
    }
}

/// What `parse_projections` returns from `p` for `expr`, given the calls
/// of the atom parser and of the operator test (see `proj_chain`).
pub open spec fn projections_result(
    p: Parser,
    q: Parser,
    r: ParserResult<Syntax>,
    expr: Syntax,
    acalls: Seq<TermCall>,
    ocalls: Seq<OpCall>,
) -> bool {
    let t = p.text();
    &&& q.text() == t
    &&& match proj_chain(t, p.offset() as int, acalls, ocalls, Seq::empty()) {
        ProjEnd::Done(steps, e, ar, or) => {
            &&& ar.len() == 0
            &&& or.len() == 0
            &&& q.offset() == e
            &&& r matches Ok(s) && chain_matches(s, expr, steps, t)
        },
        ProjEnd::Fail(s, o) => q.offset() == o && (r matches Err(e) && err_is(*e, s, t, o)),
        ProjEnd::Stuck => false,
    }
}

} // verus!
