//! Attributes: `@[inline]`, `@[simp, priority := 100]`, `@[doc "..."]`.
//! A value in parentheses is a term, read by a term parser given by the
//! caller.
use vstd::prelude::*;
use crate::error::{ParseError, ParserResult, is_custom, is_eof, is_expected};
use crate::interpolation::TermCall;
use crate::lexical::{spec_is_digit, spec_is_id_start, is_digit, is_id_start};
use crate::literals::{Lexed, char_escape, digits, radix_at, expect_error, lemma_string_body, missing_digits, number_lex, string_body};
use crate::parser::{Parser, ident_at, lemma_ident_at};
use crate::scan::{lemma_scan, lemma_trivia_end, scan, trivia_end, ws};
use crate::syntax::{pos_at, range_at, Syntax, SyntaxKind};

verus! {

/// An error, as far as the grammar decides it.
pub ghost enum ErrSpec {
    /// Saying that this was expected.
    Expected(Seq<char>),
    /// The error of `expect_char` for this character.
    Expect(char),
    /// With this message.
    Custom(Seq<char>),
}

/// `e` is the error `s` at index `o` of `t`.
pub open spec fn err_is(e: ParseError, s: ErrSpec, t: Seq<char>, o: int) -> bool {
    match s {
        ErrSpec::Expected(m) => is_expected(e, m, pos_at(t, o as nat)),
        ErrSpec::Expect(c) => expect_error(e, t, o, c),
        ErrSpec::Custom(m) => is_custom(e, m, pos_at(t, o as nat)),
    }
}

/// A token read at some index: its text and where it ends, a `(` that
/// opens a term, or the error that stops it, with its index.
pub ghost enum Lex {
    Token(Seq<char>, int),
    Paren,
    Fail(ErrSpec, int),
}

/// An identifier at `j` (see `ident_at`).
pub open spec fn ident_lex(t: Seq<char>, j: int) -> Lex {
    match ident_at(t, j) {
        Some((e, name)) => Lex::Token(name, e),
        None => if 0 <= j < t.len() && t[j] == '«' {
            Lex::Fail(ErrSpec::Expected("closing » for quoted identifier"@), t.len() as int)
        } else {
            Lex::Fail(ErrSpec::Expected("identifier"@), j)
        },
    }
}

/// A character literal at `j`, which holds `'`.
pub open spec fn char_lex(t: Seq<char>, j: int) -> Lex {
    let k = j + 1;
    if k >= t.len() {
        Lex::Fail(ErrSpec::Expect('\''), k)
    } else if t[k] == '\\' && !(k + 1 < t.len() && char_escape(t[k + 1]) is Some) {
        Lex::Fail(ErrSpec::Custom("invalid escape sequence"@), k + 1)
    } else {
        let c = if t[k] == '\\' { char_escape(t[k + 1]).unwrap() } else { t[k] };
        let m = if t[k] == '\\' { k + 2 } else { k + 1 };
        if m < t.len() && t[m] == '\'' {
            Lex::Token(seq![c], m + 1)
        } else {
            Lex::Fail(ErrSpec::Expect('\''), m)
        }
    }
}

/// The body `l` of a literal as a token, or its error `msg`.
pub open spec fn body_lex(l: Lexed, msg: Seq<char>) -> Lex {
    match l {
        Lexed::Body(s, e) => Lex::Token(s, e),
        Lexed::Invalid(k) => Lex::Fail(ErrSpec::Custom(msg), k),
    }
}

/// An attribute value at `v`, chosen by its first character: a string
/// literal, a character literal, a number, a term in parentheses or an
/// identifier; anything else is not a value.
pub open spec fn value_lex(t: Seq<char>, v: int) -> Lex {
    if !(0 <= v < t.len()) {
        Lex::Fail(ErrSpec::Expected("attribute value"@), v)
    } else if t[v] == '"' {
        body_lex(string_body(t, v + 1), "invalid escape sequence"@)
    } else if t[v] == '\'' {
        char_lex(t, v)
    } else if spec_is_digit(t[v]) {
        body_lex(number_lex(t, v), missing_digits(t, v))
    } else if t[v] == '(' {
        Lex::Paren
    } else if spec_is_id_start(t[v]) {
        ident_lex(t, v)
    } else {
        Lex::Fail(ErrSpec::Expected("attribute value"@), v)
    }
}

/// The value of an attribute.
pub ghost enum AttrValue {
    Absent,
    /// A token: its text, where it starts and where it ends.
    Token(Seq<char>, int, int),
    /// A term in parentheses.
    Term(Syntax),
}

/// How reading something that may call the term parser ends.
pub ghost enum Out<A> {
    /// With this, the cursor at the index given, and the calls left.
    Done(A, int, Seq<TermCall>),
    /// With the error given at the index given.
    Fail(ErrSpec, int),
    /// With the error the term parser gave; the cursor where it left it.
    TermError(Box<ParseError>, int),
    /// The calls do not fit the text.
    Stuck,
}

/// The value at `v`: a token, or `(`, whitespace and comments, a term read
/// by the next call, whitespace and comments, and `)`.
pub open spec fn value_out(t: Seq<char>, v: int, calls: Seq<TermCall>) -> Out<AttrValue> {
    match value_lex(t, v) {
        Lex::Token(x, e) => Out::Done(AttrValue::Token(x, v, e), e, calls),
        Lex::Fail(s, o) => if calls.len() == 0 {
            Out::Fail(s, o)
        } else {
            Out::Stuck
        },
        Lex::Paren => if calls.len() == 0 || calls[0].start != trivia_end(t, v + 1) {
            Out::Stuck
        } else {
            match calls[0].result {
                Err(e) => if calls.len() == 1 {
                    Out::TermError(e, calls[0].end)
                } else {
                    Out::Stuck
                },
                Ok(x) => {
                    let d = trivia_end(t, calls[0].end);
                    if 0 <= d < t.len() && t[d] == ')' {
                        Out::Done(AttrValue::Term(x), d + 1, calls.drop_first())
                    } else if calls.len() == 1 {
                        Out::Fail(ErrSpec::Expect(')'), d)
                    } else {
                        Out::Stuck
                    }
                },
            }
        },
    }
}

/// One attribute: its name, where it starts and where the name ends, its
/// value, and where it ends.
pub ghost struct AttrSpec {
    pub start: int,
    pub name: Seq<char>,
    pub name_end: int,
    pub value: AttrValue,
    pub end: int,
}

/// One attribute at `k`: whitespace and comments, an identifier, whitespace and comments, then
/// `:=`, whitespace and comments and a value (see `value_out`), or a value
/// right away unless `,`, `]` or the end of the text follows.
pub open spec fn attr_out(t: Seq<char>, k: int, calls: Seq<TermCall>) -> Out<AttrSpec> {
    match ident_lex(t, trivia_end(t, k)) {
        Lex::Token(name, ne) => {
            let s = trivia_end(t, ne);
            let assign = 0 <= s && s + 1 < t.len() && t[s] == ':' && t[s + 1] == '=';
            if !assign && (s >= t.len() || t[s] == ',' || t[s] == ']') {
                Out::Done(AttrSpec { start: k, name, name_end: ne, value: AttrValue::Absent, end: s }, s, calls)
            } else {
                let v = if assign { trivia_end(t, s + 2) } else { s };
                match value_out(t, v, calls) {
                    Out::Done(x, e, rest) => Out::Done(
                        AttrSpec { start: k, name, name_end: ne, value: x, end: e },
                        e,
                        rest,
                    ),
                    Out::Fail(s, o) => Out::Fail(s, o),
                    Out::TermError(e, o) => Out::TermError(e, o),
                    Out::Stuck => Out::Stuck,
                }
            }
        },
        Lex::Fail(s, o) => if calls.len() == 0 {
            Out::Fail(s, o)
        } else {
            Out::Stuck
        },
        Lex::Paren => Out::Stuck,
    }
}

/// The attributes of a list from `k`, `k` standing after `@[` or `,` and
/// after whitespace and comments: up to `]`, each an attribute (see
/// `attr_out`) followed by whitespace and comments, then `,` (and more
/// whitespace and comments) or `]`. `Done` gives the index of the `]`.
pub open spec fn attr_items(t: Seq<char>, k: int, calls: Seq<TermCall>, items: Seq<AttrSpec>) -> Out<
    Seq<AttrSpec>,
>
    decreases t.len() - k,
{
    if 0 <= k < t.len() && t[k] == ']' {
        Out::Done(items, k, calls)
    } else {
        match attr_out(t, k, calls) {
            Out::Done(a, e, rest) => {
                let n = trivia_end(t, e);
                if 0 <= n < t.len() && t[n] == ',' {
                    let k2 = trivia_end(t, n + 1);
                    if k < k2 <= t.len() {
                        attr_items(t, k2, rest, items.push(a))
                    } else {
                        Out::Stuck
                    }
                } else if 0 <= n < t.len() && t[n] == ']' {
                    Out::Done(items.push(a), n, rest)
                } else if rest.len() == 0 {
                    Out::Fail(ErrSpec::Expected(", or ]"@), n)
                } else {
                    Out::Stuck
                }
            },
            Out::Fail(s, o) => Out::Fail(s, o),
            Out::TermError(e, o) => Out::TermError(e, o),
            Out::Stuck => Out::Stuck,
        }
    }
}

/// An attribute list at `i`: `@[`, whitespace and comments, and the
/// attributes (see `attr_items`). `Done` gives the index after the `]`.
pub open spec fn attr_list_out(t: Seq<char>, i: int, calls: Seq<TermCall>) -> Out<Seq<AttrSpec>> {
    if !(0 <= i < t.len() && t[i] == '@') {
        if calls.len() == 0 {
            Out::Fail(ErrSpec::Expect('@'), i)
        } else {
            Out::Stuck
        }
    } else if !(i + 1 < t.len() && t[i + 1] == '[') {
        if calls.len() == 0 {
            Out::Fail(ErrSpec::Expect('['), i + 1)
        } else {
            Out::Stuck
        }
    } else {
        match attr_items(t, trivia_end(t, i + 2), calls, Seq::empty()) {
            Out::Done(items, c, rest) => Out::Done(items, c + 1, rest),
            Out::Fail(s, o) => Out::Fail(s, o),
            Out::TermError(e, o) => Out::TermError(e, o),
            Out::Stuck => Out::Stuck,
        }
    }
}

/// `s` is the value `v` of an attribute.
pub open spec fn value_matches(s: Syntax, v: AttrValue, t: Seq<char>) -> bool {
    match v {
        AttrValue::Absent => false,
        AttrValue::Token(x, b, e) => s matches Syntax::Atom(a) && a.value@ == x && a.range == range_at(t, b as nat, e as nat),
        AttrValue::Term(y) => s == y,
    }
}

/// `s` is the attribute `a`: an `Attribute` node spanning it whose
/// children are the name, an atom, and the value, if any.
pub open spec fn attr_matches(s: Syntax, a: AttrSpec, t: Seq<char>) -> bool {
    &&& s matches Syntax::Node(n) && {
        let cs = n.children@;
        &&& n.kind == SyntaxKind::Attribute
        &&& n.range == range_at(t, a.start as nat, a.end as nat)
        &&& cs.len() == if a.value is Absent { 1int } else { 2 }
        &&& cs[0] matches Syntax::Atom(x) && x.value@ == a.name && x.range == range_at(t, a.start as nat, a.name_end as nat)
        &&& !(a.value is Absent) ==> value_matches(cs[1], a.value, t)
    }
}

/// `s` is an attribute list spanning from `i` to `e` with the attributes
/// `items`.
pub open spec fn list_matches(s: Syntax, t: Seq<char>, i: int, e: int, items: Seq<AttrSpec>) -> bool {
    &&& s matches Syntax::Node(n) && {
        &&& n.kind == SyntaxKind::AttributeList
        &&& n.range == range_at(t, i as nat, e as nat)
        &&& n.children@.len() == items.len()
        &&& forall|m: int| 0 <= m < items.len() ==> #[trigger] attr_matches(n.children@[m], items[m], t)
    }
}

/// An attribute list: where it starts and ends, and its attributes.
pub ghost struct ListSpec {
    pub start: int,
    pub end: int,
    pub items: Seq<AttrSpec>,
}

/// Attribute lists from `k` while `@` stands there, each followed by
/// whitespace and comments.
pub open spec fn attr_lists(t: Seq<char>, k: int, calls: Seq<TermCall>, acc: Seq<ListSpec>) -> Out<
    Seq<ListSpec>,
>
    decreases t.len() - k,
{
    if !(0 <= k < t.len() && t[k] == '@') {
        Out::Done(acc, k, calls)
    } else {
        match attr_list_out(t, k, calls) {
            Out::Done(items, e, rest) => {
                let k2 = trivia_end(t, e);
                if k < k2 <= t.len() {
                    attr_lists(t, k2, rest, acc.push(ListSpec { start: k, end: e, items }))
                } else {
                    Out::Stuck
                }
            },
            Out::Fail(s, o) => Out::Fail(s, o),
            Out::TermError(e, o) => Out::TermError(e, o),
            Out::Stuck => Out::Stuck,
        }
    }
}

/// `q` and `r` end reading an attribute as `out` says.
pub open spec fn attr_result(t: Seq<char>, q: Parser, r: ParserResult<Syntax>, out: Out<AttrSpec>) -> bool {
    &&& q.text() == t
    &&& match out {
        Out::Done(a, e, rest) => {
            &&& rest.len() == 0
            &&& q.offset() == e
            &&& r matches Ok(y) && attr_matches(y, a, t)
        },
        Out::Fail(s, o) => q.offset() == o && (r matches Err(e) && err_is(*e, s, t, o)),
        Out::TermError(e, o) => q.offset() == o && r == Err::<Syntax, Box<ParseError>>(e),
        Out::Stuck => false,
    }
}

/// `q` and `r` end reading an attribute value as `out` says.
pub open spec fn value_result(t: Seq<char>, q: Parser, r: ParserResult<Syntax>, out: Out<AttrValue>) -> bool {
    &&& q.text() == t
    &&& match out {
        Out::Done(x, e, rest) => {
            &&& rest.len() == 0
            &&& q.offset() == e
            &&& r matches Ok(y) && value_matches(y, x, t)
        },
        Out::Fail(s, o) => q.offset() == o && (r matches Err(e) && err_is(*e, s, t, o)),
        Out::TermError(e, o) => q.offset() == o && r == Err::<Syntax, Box<ParseError>>(e),
        Out::Stuck => false,
    }
}

/// `q` and `r` end reading an attribute list from `i` as `out` says.
pub open spec fn list_result(t: Seq<char>, i: int, q: Parser, r: ParserResult<Syntax>, out: Out<Seq<AttrSpec>>) -> bool {
    &&& q.text() == t
    &&& match out {
        Out::Done(items, e, rest) => {
            &&& rest.len() == 0
            &&& q.offset() == e
            &&& r matches Ok(y) && list_matches(y, t, i, e, items)
        },
        Out::Fail(s, o) => q.offset() == o && (r matches Err(e) && err_is(*e, s, t, o)),
        Out::TermError(e, o) => q.offset() == o && r == Err::<Syntax, Box<ParseError>>(e),
        Out::Stuck => false,
    }
}

/// Reading a value with more calls to come ends as with the calls it
/// uses, handing the others on.
proof fn lemma_value_out_frame(t: Seq<char>, v: int, cs: Seq<TermCall>, rest: Seq<TermCall>)
    ensures
        value_out(t, v, cs) matches Out::Done(x, e, r0) ==> value_out(t, v, cs + rest) == Out::Done(
            x,
            e,
            r0 + rest,
        ),
{
    if value_out(t, v, cs) is Done && value_lex(t, v) is Paren {
        assert((cs + rest)[0] == cs[0]);
        assert((cs + rest).drop_first() =~= cs.drop_first() + rest);
    }
}

/// Reading an attribute with more calls to come ends as with the calls it
/// uses, handing the others on.
proof fn lemma_attr_out_frame(t: Seq<char>, k: int, cs: Seq<TermCall>, rest: Seq<TermCall>)
    ensures
        attr_out(t, k, cs) matches Out::Done(a, e, r0) ==> attr_out(t, k, cs + rest) == Out::Done(
            a,
            e,
            r0 + rest,
        ),
{
    let j = trivia_end(t, k);
    match ident_lex(t, j) {
        Lex::Token(name, ne) => {
            let s = trivia_end(t, ne);
            let assign = 0 <= s && s + 1 < t.len() && t[s] == ':' && t[s + 1] == '=';
            let v = if assign { trivia_end(t, s + 2) } else { s };
            lemma_value_out_frame(t, v, cs, rest);
        },
        _ => {},
    }
}

/// The attributes read so far, `v`, are `items`, and reading the list
/// from `k0` with `calls` and then `rest` goes on as reading from `k` with
/// `rest`.
pub open spec fn items_state(
    t: Seq<char>,
    k0: int,
    k: int,
    calls: Seq<TermCall>,
    items: Seq<AttrSpec>,
    v: Seq<Syntax>,
) -> bool {
    &&& v.len() == items.len()
    &&& forall|m: int| 0 <= m < items.len() ==> #[trigger] attr_matches(v[m], items[m], t)
    &&& forall|rest: Seq<TermCall>|
        #![trigger attr_items(t, k0, calls + rest, Seq::<AttrSpec>::empty())]
        attr_items(t, k0, calls + rest, Seq::<AttrSpec>::empty()) == attr_items(t, k, rest, items)
}

/// A number that starts with a digit at `v` ends, or fails, after `v`.
pub proof fn lemma_number_lex(t: Seq<char>, v: int)
    requires
        0 <= v < t.len(),
        spec_is_digit(t[v]),
    ensures
        number_lex(t, v) matches Lexed::Body(x, e) ==> v < e <= t.len(),
        number_lex(t, v) matches Lexed::Invalid(e) ==> v < e <= t.len(),
{
    match radix_at(t, v) {
        Some((letter, d)) => {
            lemma_scan(t, v + 2, d);
        },
        None => {
            lemma_scan(t, v, digits());
            let a = scan(t, v, digits());
            assert(digits()(t[v]));
            if a + 1 < t.len() && t[a] == '.' && spec_is_digit(t[a + 1]) {
                lemma_scan(t, a + 1, digits());
            }
            let b = if a + 1 < t.len() && t[a] == '.' && spec_is_digit(t[a + 1]) {
                scan(t, a + 1, digits())
            } else {
                a
            };
            if 0 <= b < t.len() && (t[b] == 'e' || t[b] == 'E') {
                let s = if b + 1 < t.len() && (t[b + 1] == '+' || t[b + 1] == '-') {
                    b + 2
                } else {
                    b + 1
                };
                lemma_scan(t, s, digits());
            }
        },
    }
}

/// `q` and `r` end reading attribute lists as `out` says.
pub open spec fn lists_result(t: Seq<char>, q: Parser, r: ParserResult<Vec<Syntax>>, out: Out<Seq<ListSpec>>) -> bool {
    &&& q.text() == t
    &&& match out {
        Out::Done(ls, e, rest) => {
            &&& rest.len() == 0
            &&& q.offset() == e
            &&& r matches Ok(v) && {
                &&& v@.len() == ls.len()
                &&& forall|m: int| 0 <= m < ls.len() ==> #[trigger] list_matches(v@[m], t, ls[m].start, ls[m].end, ls[m].items)
            }
        },
        Out::Fail(s, o) => q.offset() == o && (r matches Err(e) && err_is(*e, s, t, o)),
        Out::TermError(e, o) => q.offset() == o && r == Err::<Vec<Syntax>, Box<ParseError>>(e),
        Out::Stuck => false,
    }
}

/// The lists read so far, `v`, are `ls`, and reading lists from `k0` with
/// `calls` and then `rest` goes on as reading from `k` with `rest`.
pub open spec fn lists_state(
    t: Seq<char>,
    k0: int,
    k: int,
    calls: Seq<TermCall>,
    ls: Seq<ListSpec>,
    v: Seq<Syntax>,
) -> bool {
    &&& v.len() == ls.len()
    &&& forall|m: int| 0 <= m < ls.len() ==> #[trigger] list_matches(v[m], t, ls[m].start, ls[m].end, ls[m].items)
    &&& forall|rest: Seq<TermCall>|
        #![trigger attr_lists(t, k0, calls + rest, Seq::<ListSpec>::empty())]
        attr_lists(t, k0, calls + rest, Seq::<ListSpec>::empty()) == attr_lists(t, k, rest, ls)
}

/// Reading the attributes of a list with more calls to come ends as with
/// the calls it uses, handing the others on.
proof fn lemma_attr_items_frame(t: Seq<char>, k: int, cs: Seq<TermCall>, rest: Seq<TermCall>, items: Seq<AttrSpec>)
    ensures
        attr_items(t, k, cs, items) matches Out::Done(x, c, r0) ==> attr_items(t, k, cs + rest, items)
            == Out::Done(x, c, r0 + rest),
    decreases t.len() - k,
{
    if !(0 <= k < t.len() && t[k] == ']') {
        lemma_attr_out_frame(t, k, cs, rest);
        match attr_out(t, k, cs) {
            Out::Done(a, e, r1) => {
                let n = trivia_end(t, e);
                if 0 <= n < t.len() && t[n] == ',' {
                    let k2 = trivia_end(t, n + 1);
                    if k < k2 <= t.len() {
                        lemma_attr_items_frame(t, k2, r1, rest, items.push(a));
                    }
                }
            },
            _ => {},
        }
    }
}

/// Reading an attribute list with more calls to come ends as with the
/// calls it uses, handing the others on.
proof fn lemma_attr_list_out_frame(t: Seq<char>, i: int, cs: Seq<TermCall>, rest: Seq<TermCall>)
    ensures
        attr_list_out(t, i, cs) matches Out::Done(x, e, r0) ==> attr_list_out(t, i, cs + rest)
            == Out::Done(x, e, r0 + rest),
{
    lemma_attr_items_frame(t, trivia_end(t, i + 2), cs, rest, Seq::empty());
}

/// No trivia start at a character that may start an identifier.
pub proof fn lemma_no_trivia_at_id_start(t: Seq<char>, v: int)
    requires
        0 <= v < t.len(),
        spec_is_id_start(t[v]),
    ensures
        trivia_end(t, v) == v,
{
    assert(!(ws())(t[v]));
    assert(scan(t, v, ws()) == v);
}

impl Parser {
    /// Does the next character end an attribute: `,`, `]`, or none?
    pub fn peek_attr_end(&self) -> (b: bool)
        requires
            self.wf(),
        ensures
            b == (self.next_char() is None || self.next_char() == Some(',') || self.next_char()
                == Some(']')),
    {
        match self.peek() {
            Some(c) => c == ',' || c == ']',
            None => true,
        }
    }

    /// The value of an attribute at the cursor (see `value_out`; the calls
    /// are ones that `term` can make): a string, a character, a number, an
    /// identifier, or a term in parentheses read by `term`.
    pub fn attr_value<F>(&mut self, term: F) -> (r: ParserResult<Syntax>) where
        F: Fn(&mut Parser) -> ParserResult<Syntax>,
        requires
            old(self).wf(),
            forall|q: &mut Parser| q.wf() ==> term.requires((q,)),
            forall|q: &mut Parser, x: ParserResult<Syntax>|
                term.ensures((q,), x) ==> {
                    &&& final(q).wf()
                    &&& final(q).text() == q.text()
                    &&& final(q).offset() >= q.offset()
                },
        ensures
            final(self).wf(),
            final(self).offset() >= old(self).offset(),
            exists|calls: Seq<TermCall>|
                #![trigger value_out(old(self).text(), old(self).offset() as int, calls)]
                {
                    &&& value_result(
                        old(self).text(),
                        *final(self),
                        r,
                        value_out(old(self).text(), old(self).offset() as int, calls),
                    )
                    &&& forall|j: int|
                        #![trigger calls[j]]
                        0 <= j < calls.len() ==> exists|q: &mut Parser|
                            #![trigger term.ensures((q,), calls[j].result)]
                            {
                                &&& q.text() == old(self).text()
                                &&& q.offset() == calls[j].start
                                &&& final(q).offset() == calls[j].end
                                &&& term.ensures((q,), calls[j].result)
                            }
                },
    {
        proof {
            self.lemma_wf();
            reveal_strlit("attribute value");
            reveal_strlit("invalid escape sequence");
        }
        let ghost t = self.text();
        let ghost v = self.offset() as int;
        let ghost none: Seq<TermCall> = Seq::empty();
        let c = match self.peek() {
            Some(c) => c,
            None => {
                let r = Err(ParseError::expected("attribute value", self.position()));
                proof { assert(value_result(t, *self, r, value_out(t, v, none))); }
                return r;
            },
        };
        if c == '"' {
            let r = self.string_literal();
            proof {
                lemma_string_body(t, v + 1);
                match string_body(t, v + 1) {
                    Lexed::Body(b, e) => {
                        assert(value_lex(t, v) == Lex::Token(b, e));
                        assert(value_result(t, *self, r, value_out(t, v, none)));
                    },
                    Lexed::Invalid(k) => {
                        assert(value_lex(t, v) == Lex::Fail(ErrSpec::Custom("invalid escape sequence"@), k));
                        assert(value_result(t, *self, r, value_out(t, v, none)));
                    },
                }
            }
            r
        } else if c == '\'' {
            let r = self.char_literal();
            proof { assert(value_result(t, *self, r, value_out(t, v, none))); }
            r
        } else if is_digit(c) {
            let r = self.number();
            proof { lemma_number_lex(t, v); assert(value_result(t, *self, r, value_out(t, v, none))); }
            r
        } else if c == '(' {
            self.advance();
            self.skip_whitespace();
            proof {
                self.lemma_wf();
                lemma_trivia_end(t, v + 1);
            }
            let ghost k = self.offset() as int;
            let res = term(self);
            proof { self.lemma_wf(); }
            let ghost calls = seq![TermCall { start: k, end: self.offset() as int, result: res }];
            let x = match res {
                Ok(x) => x,
                Err(e) => {
                    proof { assert(value_result(t, *self, Err::<Syntax, Box<ParseError>>(e), value_out(t, v, calls))); }
                    return Err(e);
                },
            };
            let ghost end = self.offset() as int;
            self.skip_whitespace();
            proof {
                self.lemma_wf();
                lemma_trivia_end(t, end);
            }
            match self.expect_char(')') {
                Ok(()) => {},
                Err(e) => {
                    proof {
                        assert(value_result(t, *self, Err::<Syntax, Box<ParseError>>(e), value_out(t, v, calls)));
                    }
                    return Err(e);
                },
            }
            let r = Ok(x);
            proof {
                assert(calls.drop_first().len() == 0);
                assert(value_result(t, *self, r, value_out(t, v, calls)));
            }
            r
        } else if is_id_start(c) {
            proof { lemma_no_trivia_at_id_start(t, v); }
            let r = self.identifier();
            proof { lemma_ident_at(t, v); assert(value_result(t, *self, r, value_out(t, v, none))); }
            r
        } else {
            let r = Err(ParseError::expected("attribute value", self.position()));
            proof { assert(value_result(t, *self, r, value_out(t, v, none))); }
            r
        }
    }

    /// One attribute at the cursor (see `attr_out`; the calls are ones
    /// that `term` can make): a name, and a value after `:=` or after
    /// whitespace.
    pub fn parse_single_attribute<F>(&mut self, term: F) -> (r: ParserResult<Syntax>) where
        F: Fn(&mut Parser) -> ParserResult<Syntax>,
        requires
            old(self).wf(),
            forall|q: &mut Parser| q.wf() ==> term.requires((q,)),
            forall|q: &mut Parser, x: ParserResult<Syntax>|
                term.ensures((q,), x) ==> {
                    &&& final(q).wf()
                    &&& final(q).text() == q.text()
                    &&& final(q).offset() >= q.offset()
                },
        ensures
            final(self).wf(),
            r is Ok ==> final(self).offset() > old(self).offset(),
            exists|calls: Seq<TermCall>|
                #![trigger attr_out(old(self).text(), old(self).offset() as int, calls)]
                {
                    &&& attr_result(
                        old(self).text(),
                        *final(self),
                        r,
                        attr_out(old(self).text(), old(self).offset() as int, calls),
                    )
                    &&& forall|j: int|
                        #![trigger calls[j]]
                        0 <= j < calls.len() ==> exists|q: &mut Parser|
                            #![trigger term.ensures((q,), calls[j].result)]
                            {
                                &&& q.text() == old(self).text()
                                &&& q.offset() == calls[j].start
                                &&& final(q).offset() == calls[j].end
                                &&& term.ensures((q,), calls[j].result)
                            }
                },
    {
        proof { self.lemma_wf(); }
        let ghost t = self.text();
        let ghost k = self.offset() as int;
        let ghost none: Seq<TermCall> = Seq::empty();
        let start = self.position();
        let name = match self.identifier() {
            Ok(n) => n,
            Err(e) => {
                proof { assert(attr_result(t, *self, Err::<Syntax, Box<ParseError>>(e), attr_out(t, k, none))); }
                return Err(e);
            },
        };
        proof {
            lemma_trivia_end(t, k);
            lemma_ident_at(t, trivia_end(t, k));
            self.lemma_wf();
        }
        let ghost ne = self.offset() as int;
        let ghost gname = name;
        self.skip_whitespace();
        proof {
            lemma_trivia_end(t, ne);
            self.lemma_wf();
        }
        let ghost sp = self.offset() as int;
        let mut children: Vec<Syntax> = Vec::new();
        children.push(name);
        let assign = self.peek() == Some(':') && self.peek_nth(1) == Some('=');
        let has_value = assign || !self.peek_attr_end();
        if assign {
            self.advance();
            self.advance();
            self.skip_whitespace();
            proof {
                lemma_trivia_end(t, sp + 2);
                self.lemma_wf();
            }
        }
        let ghost v = self.offset() as int;
        let val = if has_value {
            Some(self.attr_value(term))
        } else {
            None
        };
        let ghost calls = choose|calls: Seq<TermCall>|
            {
                &&& match val {
                    Some(x) => value_result(t, *self, x, value_out(t, v, calls)),
                    None => calls.len() == 0,
                }
                &&& forall|j: int|
                    #![trigger calls[j]]
                    0 <= j < calls.len() ==> exists|q: &mut Parser|
                        #![trigger term.ensures((q,), calls[j].result)]
                        {
                            &&& q.text() == t
                            &&& q.offset() == calls[j].start
                            &&& final(q).offset() == calls[j].end
                            &&& term.ensures((q,), calls[j].result)
                        }
            };
        match val {
            Some(Ok(x)) => {
                children.push(x);
            },
            Some(Err(e)) => {
                proof { assert(attr_result(t, *self, Err::<Syntax, Box<ParseError>>(e), attr_out(t, k, calls))); }
                return Err(e);
            },
            None => {},
        }
        let range = self.input().range_from(start);
        let node = self.create_node(SyntaxKind::Attribute, range, children);
        proof { assert(attr_result(t, *self, Ok::<Syntax, Box<ParseError>>(node), attr_out(t, k, calls))); }
        Ok(node)
    }

    /// An attribute list `@[attr₁, attr₂ value, attr₃ := value]` at the
    /// cursor (see `attr_list_out`; the calls are ones that `term` can
    /// make): an `AttributeList` node whose children are the attributes.
    #[verifier::spinoff_prover]
    #[verifier::rlimit(80)]
    pub fn parse_attribute_list_syntax<F>(&mut self, term: F) -> (r: ParserResult<Syntax>) where
        F: Fn(&mut Parser) -> ParserResult<Syntax> + Copy,
        requires
            old(self).wf(),
            forall|q: &mut Parser| q.wf() ==> term.requires((q,)),
            forall|q: &mut Parser, x: ParserResult<Syntax>|
                term.ensures((q,), x) ==> {
                    &&& final(q).wf()
                    &&& final(q).text() == q.text()
                    &&& final(q).offset() >= q.offset()
                },
        ensures
            final(self).wf(),
            r is Ok ==> final(self).offset() > old(self).offset(),
            exists|calls: Seq<TermCall>|
                #![trigger attr_list_out(old(self).text(), old(self).offset() as int, calls)]
                {
                    &&& list_result(
                        old(self).text(),
                        old(self).offset() as int,
                        *final(self),
                        r,
                        attr_list_out(old(self).text(), old(self).offset() as int, calls),
                    )
                    &&& forall|j: int|
                        #![trigger calls[j]]
                        0 <= j < calls.len() ==> exists|q: &mut Parser|
                            #![trigger term.ensures((q,), calls[j].result)]
                            {
                                &&& q.text() == old(self).text()
                                &&& q.offset() == calls[j].start
                                &&& final(q).offset() == calls[j].end
                                &&& term.ensures((q,), calls[j].result)
                            }
                },
    {
        proof { self.lemma_wf(); }
        let ghost t = self.text();
        let ghost i = self.offset() as int;
        let ghost none: Seq<TermCall> = Seq::empty();
        let start = self.position();
        match self.expect_char('@') {
            Ok(()) => {},
            Err(e) => {
                proof { assert(list_result(t, i, *self, Err::<Syntax, Box<ParseError>>(e), attr_list_out(t, i, none))); }
                return Err(e);
            },
        }
        match self.expect_char('[') {
            Ok(()) => {},
            Err(e) => {
                proof { assert(list_result(t, i, *self, Err::<Syntax, Box<ParseError>>(e), attr_list_out(t, i, none))); }
                return Err(e);
            },
        }
        self.skip_whitespace();
        proof {
            lemma_trivia_end(t, i + 2);
            self.lemma_wf();
        }
        let ghost k0 = self.offset() as int;
        let mut attributes: Vec<Syntax> = Vec::new();
        proof {
            assert forall|rest: Seq<TermCall>|
                #![trigger attr_items(t, k0, none + rest, Seq::<AttrSpec>::empty())]
                attr_items(t, k0, none + rest, Seq::<AttrSpec>::empty())
                    == attr_items(t, k0, rest, Seq::<AttrSpec>::empty()) by {
                assert(none + rest =~= rest);
            }
            assert(items_state(t, k0, k0, none, Seq::empty(), attributes@));
        }
        while self.peek() != Some(']')
            invariant
                self.wf(),
                t == self.text(),
                t == old(self).text(),
                i == old(self).offset(),
                start == pos_at(t, i as nat),
                0 <= i && i + 1 < t.len() && t[i] == '@' && t[i + 1] == '[',
                k0 == trivia_end(t, i + 2),
                k0 <= self.offset() <= t.len(),
                trivia_end(t, self.offset() as int) == self.offset(),
                forall|q: &mut Parser| q.wf() ==> term.requires((q,)),
                forall|q: &mut Parser, x: ParserResult<Syntax>|
                    term.ensures((q,), x) ==> {
                        &&& final(q).wf()
                        &&& final(q).text() == q.text()
                        &&& final(q).offset() >= q.offset()
                    },
                exists|calls: Seq<TermCall>, items: Seq<AttrSpec>|
                    #![trigger items_state(t, k0, self.offset() as int, calls, items, attributes@)]
                    {
                        &&& items_state(t, k0, self.offset() as int, calls, items, attributes@)
                        &&& forall|jj: int|
                            #![trigger calls[jj]]
                            0 <= jj < calls.len() ==> exists|q: &mut Parser|
                                #![trigger term.ensures((q,), calls[jj].result)]
                                {
                                    &&& q.text() == t
                                    &&& q.offset() == calls[jj].start
                                    &&& final(q).offset() == calls[jj].end
                                    &&& term.ensures((q,), calls[jj].result)
                                }
                    },
            decreases t.len() - self.offset(),
        {
            proof { self.lemma_wf(); }
            let ghost k = self.offset() as int;
            let ghost attrs0 = attributes@;
            let ghost (calls0, items0) = choose|calls: Seq<TermCall>, items: Seq<AttrSpec>|
                {
                    &&& items_state(t, k0, k, calls, items, attrs0)
                    &&& forall|jj: int|
                        #![trigger calls[jj]]
                        0 <= jj < calls.len() ==> exists|q: &mut Parser|
                            #![trigger term.ensures((q,), calls[jj].result)]
                            {
                                &&& q.text() == t
                                &&& q.offset() == calls[jj].start
                                &&& final(q).offset() == calls[jj].end
                                &&& term.ensures((q,), calls[jj].result)
                            }
                };
            let res = self.parse_single_attribute(term);
            let ghost cs = choose|cs: Seq<TermCall>|
                {
                    &&& attr_result(t, *self, res, attr_out(t, k, cs))
                    &&& forall|j: int|
                        #![trigger cs[j]]
                        0 <= j < cs.len() ==> exists|q: &mut Parser|
                            #![trigger term.ensures((q,), cs[j].result)]
                            {
                                &&& q.text() == t
                                &&& q.offset() == cs[j].start
                                &&& final(q).offset() == cs[j].end
                                &&& term.ensures((q,), cs[j].result)
                            }
                };
            let ghost all = calls0 + cs;
            proof {
                self.lemma_wf();
                assert forall|jj: int| #![trigger all[jj]] 0 <= jj < all.len() implies exists|q: &mut Parser|
                    #![trigger term.ensures((q,), all[jj].result)]
                    {
                        &&& q.text() == t
                        &&& q.offset() == all[jj].start
                        &&& final(q).offset() == all[jj].end
                        &&& term.ensures((q,), all[jj].result)
                    } by {
                    if jj < calls0.len() {
                        assert(all[jj] == calls0[jj]);
                    } else {
                        assert(all[jj] == cs[jj - calls0.len()]);
                    }
                }
                assert(attr_items(t, k0, calls0 + cs, Seq::<AttrSpec>::empty()) == attr_items(t, k, cs, items0));
            }
            let a = match res {
                Ok(a) => a,
                Err(e) => {
                    proof { assert(list_result(t, i, *self, Err::<Syntax, Box<ParseError>>(e), attr_list_out(t, i, all))); }
                    return Err(e);
                },
            };
            let ghost spec_a = match attr_out(t, k, cs) {
                Out::Done(x, _, _) => x,
                _ => arbitrary(),
            };
            let ghost e = self.offset() as int;
            attributes.push(a);
            let ghost items1 = items0.push(spec_a);
            proof {
                assert forall|m: int| 0 <= m < items1.len() implies #[trigger] attr_matches(attributes@[m], items1[m], t) by {
                    if m < items0.len() {
                        assert(attr_matches(attrs0[m], items0[m], t));
                    }
                }
            }
            self.skip_whitespace();
            proof {
                lemma_trivia_end(t, e);
                self.lemma_wf();
            }
            let ghost n = self.offset() as int;
            if self.peek() == Some(',') {
                self.advance();
                self.skip_whitespace();
                proof {
                    lemma_trivia_end(t, n + 1);
                    crate::binder::lemma_trivia_idem(t, n + 1);
                }
            } else if self.peek() != Some(']') {
                let err = ParseError::expected(", or ]", self.position());
                proof {
                    reveal_strlit(", or ]");
                    assert(list_result(t, i, *self, Err::<Syntax, Box<ParseError>>(err), attr_list_out(t, i, all)));
                }
                return Err(err);
            } else {
                proof { crate::binder::lemma_trivia_idem(t, e); }
            }
            proof {
                assert forall|rest: Seq<TermCall>|
                    #![trigger attr_items(t, k0, all + rest, Seq::<AttrSpec>::empty())]
                    attr_items(t, k0, all + rest, Seq::<AttrSpec>::empty())
                        == attr_items(t, self.offset() as int, rest, items1) by {
                    assert(calls0 + (cs + rest) =~= all + rest);
                    lemma_attr_out_frame(t, k, cs, rest);
                    if 0 <= n < t.len() && t[n] == ']' {
                        assert(attr_items(t, self.offset() as int, rest, items1) == Out::Done(items1, n, rest));
                    }
                }
                assert(items_state(t, k0, self.offset() as int, all, items1, attributes@));
            }
        }
        let ghost c = self.offset() as int;
        let ghost (calls, items) = choose|calls: Seq<TermCall>, items: Seq<AttrSpec>|
            {
                &&& items_state(t, k0, c, calls, items, attributes@)
                &&& forall|jj: int|
                    #![trigger calls[jj]]
                    0 <= jj < calls.len() ==> exists|q: &mut Parser|
                        #![trigger term.ensures((q,), calls[jj].result)]
                        {
                            &&& q.text() == t
                            &&& q.offset() == calls[jj].start
                            &&& final(q).offset() == calls[jj].end
                            &&& term.ensures((q,), calls[jj].result)
                        }
            };
        match self.expect_char(']') {
            Ok(()) => {},
            Err(err) => {
                proof { assert(false); }
                return Err(err);
            },
        }
        let range = self.input().range_from(start);
        let ghost kids = attributes@;
        let node = self.create_node(SyntaxKind::AttributeList, range, attributes);
        proof {
            assert(calls + none =~= calls);
            assert(attr_items(t, k0, calls + none, Seq::<AttrSpec>::empty()) == Out::Done(items, c, none));
            assert(list_result(t, i, *self, Ok::<Syntax, Box<ParseError>>(node), attr_list_out(t, i, calls)));
        }
        Ok(node)
    }

    /// Attribute lists at the cursor, one after another while `@` follows,
    /// each followed by whitespace and comments (see `attr_lists`; the
    /// calls are ones that `term` can make).
    #[verifier::spinoff_prover]
    #[verifier::rlimit(80)]
    pub fn parse_attribute_list<F>(&mut self, term: F) -> (r: ParserResult<Vec<Syntax>>) where
        F: Fn(&mut Parser) -> ParserResult<Syntax> + Copy,
        requires
            old(self).wf(),
            forall|q: &mut Parser| q.wf() ==> term.requires((q,)),
            forall|q: &mut Parser, x: ParserResult<Syntax>|
                term.ensures((q,), x) ==> {
                    &&& final(q).wf()
                    &&& final(q).text() == q.text()
                    &&& final(q).offset() >= q.offset()
                },
        ensures
            final(self).wf(),
            exists|calls: Seq<TermCall>|
                #![trigger attr_lists(old(self).text(), old(self).offset() as int, calls, Seq::<ListSpec>::empty())]
                {
                    &&& lists_result(
                        old(self).text(),
                        *final(self),
                        r,
                        attr_lists(old(self).text(), old(self).offset() as int, calls, Seq::<ListSpec>::empty()),
                    )
                    &&& forall|j: int|
                        #![trigger calls[j]]
                        0 <= j < calls.len() ==> exists|q: &mut Parser|
                            #![trigger term.ensures((q,), calls[j].result)]
                            {
                                &&& q.text() == old(self).text()
                                &&& q.offset() == calls[j].start
                                &&& final(q).offset() == calls[j].end
                                &&& term.ensures((q,), calls[j].result)
                            }
                },
    {
        proof { self.lemma_wf(); }
        let ghost t = self.text();
        let ghost k0 = self.offset() as int;
        let ghost none: Seq<TermCall> = Seq::empty();
        let mut lists: Vec<Syntax> = Vec::new();
        proof {
            assert forall|rest: Seq<TermCall>|
                #![trigger attr_lists(t, k0, none + rest, Seq::<ListSpec>::empty())]
                attr_lists(t, k0, none + rest, Seq::<ListSpec>::empty())
                    == attr_lists(t, k0, rest, Seq::<ListSpec>::empty()) by {
                assert(none + rest =~= rest);
            }
            assert(lists_state(t, k0, k0, none, Seq::empty(), lists@));
        }
        while self.peek() == Some('@')
            invariant
                self.wf(),
                t == self.text(),
                t == old(self).text(),
                k0 == old(self).offset(),
                k0 <= self.offset() <= t.len(),
                forall|q: &mut Parser| q.wf() ==> term.requires((q,)),
                forall|q: &mut Parser, x: ParserResult<Syntax>|
                    term.ensures((q,), x) ==> {
                        &&& final(q).wf()
                        &&& final(q).text() == q.text()
                        &&& final(q).offset() >= q.offset()
                    },
                exists|calls: Seq<TermCall>, ls: Seq<ListSpec>|
                    #![trigger lists_state(t, k0, self.offset() as int, calls, ls, lists@)]
                    {
                        &&& lists_state(t, k0, self.offset() as int, calls, ls, lists@)
                        &&& forall|jj: int|
                            #![trigger calls[jj]]
                            0 <= jj < calls.len() ==> exists|q: &mut Parser|
                                #![trigger term.ensures((q,), calls[jj].result)]
                                {
                                    &&& q.text() == t
                                    &&& q.offset() == calls[jj].start
                                    &&& final(q).offset() == calls[jj].end
                                    &&& term.ensures((q,), calls[jj].result)
                                }
                    },
            decreases t.len() - self.offset(),
        {
            proof { self.lemma_wf(); }
            let ghost k = self.offset() as int;
            let ghost lists0 = lists@;
            let ghost (calls0, ls0) = choose|calls: Seq<TermCall>, ls: Seq<ListSpec>|
                {
                    &&& lists_state(t, k0, k, calls, ls, lists0)
                    &&& forall|jj: int|
                        #![trigger calls[jj]]
                        0 <= jj < calls.len() ==> exists|q: &mut Parser|
                            #![trigger term.ensures((q,), calls[jj].result)]
                            {
                                &&& q.text() == t
                                &&& q.offset() == calls[jj].start
                                &&& final(q).offset() == calls[jj].end
                                &&& term.ensures((q,), calls[jj].result)
                            }
                };
            let res = self.parse_attribute_list_syntax(term);
            let ghost cs = choose|cs: Seq<TermCall>|
                {
                    &&& list_result(t, k, *self, res, attr_list_out(t, k, cs))
                    &&& forall|j: int|
                        #![trigger cs[j]]
                        0 <= j < cs.len() ==> exists|q: &mut Parser|
                            #![trigger term.ensures((q,), cs[j].result)]
                            {
                                &&& q.text() == t
                                &&& q.offset() == cs[j].start
                                &&& final(q).offset() == cs[j].end
                                &&& term.ensures((q,), cs[j].result)
                            }
                };
            let ghost all = calls0 + cs;
            proof {
                self.lemma_wf();
                assert forall|jj: int| #![trigger all[jj]] 0 <= jj < all.len() implies exists|q: &mut Parser|
                    #![trigger term.ensures((q,), all[jj].result)]
                    {
                        &&& q.text() == t
                        &&& q.offset() == all[jj].start
                        &&& final(q).offset() == all[jj].end
                        &&& term.ensures((q,), all[jj].result)
                    } by {
                    if jj < calls0.len() {
                        assert(all[jj] == calls0[jj]);
                    } else {
                        assert(all[jj] == cs[jj - calls0.len()]);
                    }
                }
                assert(attr_lists(t, k0, calls0 + cs, Seq::<ListSpec>::empty()) == attr_lists(t, k, cs, ls0));
            }
            let node = match res {
                Ok(node) => node,
                Err(e) => {
                    proof { assert(lists_result(t, *self, Err::<Vec<Syntax>, Box<ParseError>>(e), attr_lists(t, k0, all, Seq::<ListSpec>::empty()))); }
                    return Err(e);
                },
            };
            let ghost e = self.offset() as int;
            let ghost spec_l = match attr_list_out(t, k, cs) {
                Out::Done(items, _, _) => ListSpec { start: k, end: e, items },
                _ => arbitrary(),
            };
            lists.push(node);
            let ghost ls1 = ls0.push(spec_l);
            self.skip_whitespace();
            proof {
                lemma_trivia_end(t, e);
                self.lemma_wf();
                assert forall|m: int| 0 <= m < ls1.len() implies #[trigger] list_matches(lists@[m], t, ls1[m].start, ls1[m].end, ls1[m].items) by {
                    if m < ls0.len() {
                        assert(list_matches(lists0[m], t, ls0[m].start, ls0[m].end, ls0[m].items));
                    }
                }
                assert forall|rest: Seq<TermCall>|
                    #![trigger attr_lists(t, k0, all + rest, Seq::<ListSpec>::empty())]
                    attr_lists(t, k0, all + rest, Seq::<ListSpec>::empty())
                        == attr_lists(t, self.offset() as int, rest, ls1) by {
                    assert(calls0 + (cs + rest) =~= all + rest);
                    lemma_attr_list_out_frame(t, k, cs, rest);
                }
                assert(lists_state(t, k0, self.offset() as int, all, ls1, lists@));
            }
        }
        let ghost c = self.offset() as int;
        let ghost (calls, ls) = choose|calls: Seq<TermCall>, ls: Seq<ListSpec>|
            {
                &&& lists_state(t, k0, c, calls, ls, lists@)
                &&& forall|jj: int|
                    #![trigger calls[jj]]
                    0 <= jj < calls.len() ==> exists|q: &mut Parser|
                        #![trigger term.ensures((q,), calls[jj].result)]
                        {
                            &&& q.text() == t
                            &&& q.offset() == calls[jj].start
                            &&& final(q).offset() == calls[jj].end
                            &&& term.ensures((q,), calls[jj].result)
                        }
            };
        let r = Ok(lists);
        proof {
            assert(calls + none =~= calls);
            assert(attr_lists(t, k0, calls + none, Seq::<ListSpec>::empty()) == Out::Done(ls, c, none));
            assert(lists_result(t, *self, r, attr_lists(t, k0, calls, Seq::<ListSpec>::empty())));
        }
        r
    }
}

} // verus!
