//! The parser state and its lexical layer: the cursor, trivia collection,
//! keywords and identifiers, and the bookkeeping of errors and warnings.
use vstd::prelude::*;
use crate::error::{Diagnostic, ParseError, ParseErrorKind, ParserResult, is_expected, is_eof};
use crate::input::{Input, string_push};
use crate::lexical::{
    is_not_close_guillemet, is_not_newline, is_alphabetic, is_id_continue, is_id_start, is_whitespace, spec_is_ascii_alpha,
    spec_is_id_continue, spec_is_id_start, spec_is_whitespace, unicode_alphabetic,
};
use crate::scan::{
    block_comment_end, comment_at, doc_comment_end, extends_with_trivia, lemma_block_comment_end,
    lemma_comment_at, lemma_doc_comment_end, lemma_scan, lemma_scan_unique, lemma_subrange_push, lemma_trivia_end,
    line_comment_end, not_newline, pair_at, scan, trivia_end, trivia_list_matches, trivia_matches,
    trivia_spans, trivia_text, ws,
};
use crate::syntax::{
    lemma_line_col_bounds, pos_at, range_at, SourcePos, SourceRange, Syntax, SyntaxAtom,
    SyntaxKind, SyntaxNode, Trivia, TriviaKind,
};

verus! {

/// Whether the parser reads terms or tactics.
#[derive(Debug, Clone, Copy, PartialEq, Eq, Structural)]
pub enum ParsingMode {
    Term,
    Tactic,
}

/// The parser: a cursor over the source, the trivia collected for the next
/// token, and the errors and warnings recorded so far.
pub struct Parser {
    input: Input,
    mode: ParsingMode,
    current_category: String,
    warnings: Vec<Diagnostic>,
    errors: Vec<ParseError>,
    max_errors: usize,
    leading_trivia: Vec<Trivia>,
}

/// `text` holds the characters of `word` at `i`, and no identifier character
/// follows them.
pub open spec fn keyword_at(text: Seq<char>, i: int, word: Seq<char>) -> bool {
    &&& 0 <= i
    &&& i + word.len() <= text.len()
    &&& text.subrange(i, i + word.len()) == word
    &&& !(i + word.len() < text.len() && spec_is_id_continue(text[i + word.len()]))
}

/// Identifier characters.
pub open spec fn id_char() -> spec_fn(char) -> bool {
    |c: char| spec_is_id_continue(c)
}

/// Anything but a closing guillemet.
pub open spec fn not_close_guillemet() -> spec_fn(char) -> bool {
    |c: char| c != '»'
}

/// Where an identifier that starts at `j` ends, and its name: either a
/// guillemet-quoted name `«...»` or a run of identifier characters; `None`
/// when neither starts at `j`, or a quoted name is not closed.
pub open spec fn ident_at(text: Seq<char>, j: int) -> Option<(int, Seq<char>)> {
    if 0 <= j < text.len() && text[j] == '«' {
        let k = scan(text, j + 1, not_close_guillemet());
        if k < text.len() {
            Some((k + 1, text.subrange(j + 1, k)))
        } else {
            None
        }
    } else if 0 <= j < text.len() && spec_is_id_start(text[j]) {
        let e = scan(text, j, id_char());
        Some((e, text.subrange(j, e)))
    } else {
        None
    }
}

/// Space or tab.
pub open spec fn blank() -> spec_fn(char) -> bool {
    |c: char| c == ' ' || c == '\t'
}

/// An attribute list seems to start at `i`: `[`, then spaces or tabs, then
/// an alphabetic character or `_`.
pub open spec fn attribute_list_at(text: Seq<char>, i: int) -> bool {
    let k = scan(text, i + 1, blank());
    &&& 0 <= i < text.len()
    &&& text[i] == '['
    &&& k < text.len()
    &&& (unicode_alphabetic(text[k]) || text[k] == '_')
}

/// `s` is an atom with this span, text and leading trivia, and no trailing
/// trivia.
pub open spec fn is_atom(s: Syntax, range: SourceRange, value: Seq<char>, trivia: Seq<Trivia>) -> bool {
    &&& s matches Syntax::Atom(a)
    &&& a.range == range
    &&& a.value@ == value
    &&& a.leading_trivia@ == trivia
    &&& a.trailing_trivia@.len() == 0
}

/// `s` is a node of this kind, span, children and leading trivia, and no
/// trailing trivia.
pub open spec fn is_node(
    s: Syntax,
    kind: SyntaxKind,
    range: SourceRange,
    children: Seq<Syntax>,
    trivia: Seq<Trivia>,
) -> bool {
    &&& s matches Syntax::Node(n)
    &&& n.kind == kind
    &&& n.range == range
    &&& n.children@ == children
    &&& n.leading_trivia@ == trivia
    &&& n.trailing_trivia@.len() == 0
}

/// An identifier ends after its start and within the text.
pub proof fn lemma_ident_at(text: Seq<char>, j: int)
    requires
        0 <= j <= text.len(),
    ensures
        ident_at(text, j) matches Some((e, name)) ==> j < e <= text.len(),
{
    if 0 <= j < text.len() && text[j] == '«' {
        lemma_scan(text, j + 1, not_close_guillemet());
    } else if 0 <= j < text.len() && spec_is_id_start(text[j]) {
        lemma_scan(text, j, id_char());
        assert(id_char()(text[j]));
    }
}

/// What `identifier` does, started in state `p` and ended in state `q` with
/// result `r`. Let `j` be where the trivia at the cursor end. If an
/// identifier stands at `j`, the result is an atom of its name spanning
/// from the cursor to its end, carrying the collected and the skipped
/// trivia, which leave the parser. Otherwise the skipped trivia stay
/// collected and the result is an error: at the end of the text for an
/// unclosed `«`, else at `j`, saying that an identifier was expected.
pub open spec fn identifier_result(p: Parser, q: Parser, r: ParserResult<Syntax>) -> bool {
    let t = p.text();
    let i = p.offset() as int;
    let j = trivia_end(t, i);
    match ident_at(t, j) {
        Some((e, name)) => {
            &&& q.same_context(p)
            &&& q.trivia().len() == 0
            &&& q.offset() == e
            &&& r matches Ok(s)
            &&& s matches Syntax::Atom(a)
            &&& a.range == range_at(t, i as nat, e as nat)
            &&& a.value@ == name
            &&& extends_with_trivia(p.trivia(), a.leading_trivia@, t, i)
            &&& a.trailing_trivia@.len() == 0
        },
        None => {
            &&& extends_with_trivia(p.trivia(), q.trivia(), t, i)
            &&& q.same_context(p)
            &&& if 0 <= j < t.len() && t[j] == '«' {
                &&& q.offset() == t.len()
                &&& r matches Err(e) && is_expected(
                    *e,
                    "closing » for quoted identifier"@,
                    pos_at(t, t.len()),
                )
            } else {
                &&& q.offset() == j
                &&& r matches Err(e) && is_expected(*e, "identifier"@, pos_at(t, j as nat))
            }
        },
    }
}

impl Parser {
    /// The source text.
    pub closed spec fn text(self) -> Seq<char> {
        self.input.text()
    }

    /// The index of the next character.
    pub closed spec fn offset(self) -> nat {
        self.input.offset()
    }

    /// The saved character indices of the cursor, most recent last.
    pub closed spec fn saved(self) -> Seq<nat> {
        self.input.saved()
    }

    /// The trivia collected for the next token.
    pub closed spec fn trivia(self) -> Seq<Trivia> {
        self.leading_trivia@
    }

    /// The errors recorded so far.
    pub closed spec fn errors_spec(self) -> Seq<ParseError> {
        self.errors@
    }

    /// The warnings recorded so far.
    pub closed spec fn warnings_spec(self) -> Seq<Diagnostic> {
        self.warnings@
    }

    /// The parsing mode.
    pub closed spec fn mode_spec(self) -> ParsingMode {
        self.mode
    }

    /// The current syntax category.
    pub closed spec fn category(self) -> Seq<char> {
        self.current_category@
    }

    /// How many errors the parser records before it gives up recovering.
    pub closed spec fn max_errors(self) -> nat {
        self.max_errors as nat
    }

    /// The parser is consistent.
    pub closed spec fn wf(self) -> bool {
        self.input.wf()
    }

    /// The next character, if any.
    pub open spec fn next_char(self) -> Option<char> {
        if self.offset() < self.text().len() {
            Some(self.text()[self.offset() as int])
        } else {
            None
        }
    }

    /// The character `n` places ahead, if any.
    pub open spec fn char_at(self, n: nat) -> Option<char> {
        if self.offset() + n < self.text().len() {
            Some(self.text()[(self.offset() + n) as int])
        } else {
            None
        }
    }

    /// The current source position.
    pub open spec fn pos(self) -> SourcePos {
        pos_at(self.text(), self.offset())
    }

    /// `self` and `other` agree on everything but the cursor and the
    /// collected trivia.
    pub open spec fn same_context(self, other: Parser) -> bool {
        &&& self.text() == other.text()
        &&& self.saved() == other.saved()
        &&& self.errors_spec() == other.errors_spec()
        &&& self.warnings_spec() == other.warnings_spec()
        &&& self.mode_spec() == other.mode_spec()
        &&& self.category() == other.category()
        &&& self.max_errors() == other.max_errors()
    }

    /// `self` is `other` with the cursor moved to `offset`.
    pub open spec fn moved(self, other: Parser, offset: nat) -> bool {
        &&& self.same_context(other)
        &&& self.trivia() == other.trivia()
        &&& self.offset() == offset
    }

    /// `self` is `other` with the cursor moved to `offset` and perhaps more
    /// trivia collected.
    pub open spec fn moved_trivia(self, other: Parser, offset: nat) -> bool {
        &&& self.same_context(other)
        &&& self.offset() == offset
    }

    /// `self` is `other` after collecting the trivia that start at its
    /// cursor.
    pub open spec fn skipped(self, other: Parser) -> bool {
        &&& self.same_context(other)
        &&& self.offset() == trivia_end(other.text(), other.offset() as int)
        &&& extends_with_trivia(other.trivia(), self.trivia(), other.text(), other.offset() as int)
    }

    /// The facts every well-formed parser satisfies.
    pub proof fn lemma_wf(self)
        requires
            self.wf(),
        ensures
            self.offset() <= self.text().len(),
            self.text().len() < usize::MAX,
    {
        self.input.lemma_wf();
    }

    /// A parser at the start of `source`, in term mode, in the `term`
    /// category, with nothing recorded and an error limit of 100.
    pub fn new(source: &str) -> (p: Parser)
        requires
            source@.len() < usize::MAX,
        ensures
            p.wf(),
            p.text() == source@,
            p.offset() == 0,
            p.saved().len() == 0,
            p.trivia().len() == 0,
            p.errors_spec().len() == 0,
            p.warnings_spec().len() == 0,
            p.mode_spec() == ParsingMode::Term,
            p.category() == "term"@,
            p.max_errors() == 100,
    {
        Parser {
            input: Input::new(source),
            mode: ParsingMode::Term,
            current_category: "term".to_owned(),
            warnings: Vec::new(),
            errors: Vec::new(),
            max_errors: 100,
            leading_trivia: Vec::new(),
        }
    }

    /// The cursor.
    pub fn input(&self) -> (i: &Input)
        ensures
            i.text() == self.text(),
            i.offset() == self.offset(),
            i.saved() == self.saved(),
            self.wf() ==> i.wf(),
    {
        &self.input
    }

    /// The parsing mode.
    pub fn mode(&self) -> (m: ParsingMode)
        ensures
            m == self.mode_spec(),
    {
        self.mode
    }

    /// `self` and `other` agree on everything but the mode.
    pub open spec fn same_but_mode(self, other: Parser) -> bool {
        &&& self.wf() == other.wf()
        &&& self.text() == other.text()
        &&& self.offset() == other.offset()
        &&& self.saved() == other.saved()
        &&& self.trivia() == other.trivia()
        &&& self.errors_spec() == other.errors_spec()
        &&& self.warnings_spec() == other.warnings_spec()
        &&& self.category() == other.category()
        &&& self.max_errors() == other.max_errors()
    }

    /// Runs `f` in parsing mode `mode`, then restores the previous mode.
    pub fn with_mode<T, F>(&mut self, mode: ParsingMode, f: F) -> (r: T) where
        F: FnOnce(&mut Parser) -> T,
        requires
            old(self).wf(),
            forall|q: &mut Parser| q.wf() ==> f.requires((q,)),
        ensures
            exists|q: &mut Parser|
                #![trigger f.ensures((q,), r)]
                {
                    &&& q.same_but_mode(*old(self))
                    &&& q.mode_spec() == mode
                    &&& f.ensures((q,), r)
                    &&& final(self).same_but_mode(*final(q))
                    &&& final(self).mode_spec() == old(self).mode_spec()
                },
    {
        let old_mode = self.mode;
        self.mode = mode;
        assert(self.wf());
        assert(f.requires((self,)));
        let result = f(self);
        self.mode = old_mode;
        result
    }

    /// Records a warning about `span`.
    pub fn add_warning(&mut self, span: SourceRange, message: String)
        ensures
            final(self).wf() == old(self).wf(),
            final(self).text() == old(self).text(),
            final(self).offset() == old(self).offset(),
            final(self).saved() == old(self).saved(),
            final(self).trivia() == old(self).trivia(),
            final(self).errors_spec() == old(self).errors_spec(),
            final(self).mode_spec() == old(self).mode_spec(),
            final(self).category() == old(self).category(),
            final(self).max_errors() == old(self).max_errors(),
            final(self).warnings_spec().len() == old(self).warnings_spec().len() + 1,
            final(self).warnings_spec().drop_last() == old(self).warnings_spec(),
            final(self).warnings_spec().last().message@ == message@,
            final(self).warnings_spec().last().span == Some(span),
    {
        self.warnings.push(Diagnostic::warning(message).with_span(span));
    }

    /// The warnings recorded so far.
    pub fn warnings(&self) -> (w: &[Diagnostic])
        ensures
            w@ == self.warnings_spec(),
    {
        self.warnings.as_slice()
    }

    /// Records an error.
    pub fn record_error(&mut self, error: Box<ParseError>)
        ensures
            final(self).wf() == old(self).wf(),
            final(self).text() == old(self).text(),
            final(self).offset() == old(self).offset(),
            final(self).saved() == old(self).saved(),
            final(self).trivia() == old(self).trivia(),
            final(self).warnings_spec() == old(self).warnings_spec(),
            final(self).mode_spec() == old(self).mode_spec(),
            final(self).category() == old(self).category(),
            final(self).max_errors() == old(self).max_errors(),
            final(self).errors_spec() == old(self).errors_spec().push(*error),
    {
        self.errors.push(*error);
    }

    /// The errors recorded so far.
    pub fn errors(&self) -> (e: &[ParseError])
        ensures
            e@ == self.errors_spec(),
    {
        self.errors.as_slice()
    }

    /// Have as many errors been recorded as the limit allows?
    pub fn too_many_errors(&self) -> (b: bool)
        ensures
            b == (self.errors_spec().len() >= self.max_errors()),
    {
        self.errors.len() >= self.max_errors
    }

    /// The current position.
    pub fn position(&self) -> (p: SourcePos)
        requires
            self.wf(),
        ensures
            p == self.pos(),
    {
        self.input.position()
    }

    /// The next character, without consuming it.
    pub fn peek(&self) -> (c: Option<char>)
        requires
            self.wf(),
        ensures
            c == self.next_char(),
    {
        self.input.peek()
    }

    /// The character `n` places ahead, without consuming anything.
    pub fn peek_nth(&self, n: usize) -> (c: Option<char>)
        requires
            self.wf(),
        ensures
            c == self.char_at(n as nat),
    {
        self.input.peek_nth(n)
    }

    /// Consumes and returns the next character.
    pub fn advance(&mut self) -> (c: Option<char>)
        requires
            old(self).wf(),
        ensures
            final(self).wf(),
            c == old(self).next_char(),
            final(self).moved(
                *old(self),
                if old(self).offset() < old(self).text().len() {
                    old(self).offset() + 1
                } else {
                    old(self).offset()
                },
            ),
    {
        self.input.advance()
    }

    /// Consumes `expected` if it is the next character; otherwise fails,
    /// saying that `'expected'` was expected, or that the input ended.
    pub fn expect_char(&mut self, expected: char) -> (r: ParserResult<()>)
        requires
            old(self).wf(),
        ensures
            final(self).wf(),
            old(self).next_char() == Some(expected) ==> r is Ok && final(self).moved(
                *old(self),
                old(self).offset() + 1,
            ),
            old(self).next_char() != Some(expected) ==> final(self).moved(
                *old(self),
                old(self).offset(),
            ) && (r matches Err(e) && match old(self).next_char() {
                Some(_) => is_expected(*e, seq!['\'', expected, '\''], old(self).pos()),
                None => is_eof(*e, old(self).pos()),
            }),
    {
        match self.peek() {
            Some(ch) => {
                if ch == expected {
                    self.advance();
                    Ok(())
                } else {
                    let mut what = String::new();
                    string_push(&mut what, '\'');
                    string_push(&mut what, expected);
                    string_push(&mut what, '\'');
                    assert(what@ == seq!['\'', expected, '\'']);
                    Err(
                        Box::new(
                            ParseError {
                                kind: ParseErrorKind::Expected(what),
                                position: self.position(),
                            },
                        ),
                    )
                }
            },
            None => Err(ParseError::boxed(ParseErrorKind::UnexpectedEof, self.position())),
        }
    }

    /// Consumes characters while `pred` accepts them and returns them.
    pub fn consume_while<F>(&mut self, pred: F) -> (s: String) where F: Fn(char) -> bool
        requires
            old(self).wf(),
            forall|c: char| pred.requires((c,)),
        ensures
            final(self).wf(),
            final(self).same_context(*old(self)),
            final(self).trivia() == old(self).trivia(),
            old(self).offset() <= final(self).offset() <= old(self).text().len(),
            s@ == old(self).text().subrange(old(self).offset() as int, final(self).offset() as int),
            forall|k: int|
                old(self).offset() <= k < final(self).offset() ==> pred.ensures(
                    (#[trigger] old(self).text()[k],),
                    true,
                ),
            final(self).offset() < old(self).text().len() ==> pred.ensures(
                (old(self).text()[final(self).offset() as int],),
                false,
            ),
    {
        self.input.consume_while(pred)
    }

    /// Consumes the characters from the cursor on that `p` accepts, as
    /// `consume_while` does with a closure that computes `p`.
    pub(crate) fn consume_matching<F>(&mut self, pred: F, Ghost(p): Ghost<spec_fn(char) -> bool>) -> (s: String) where
        F: Fn(char) -> bool,
        requires
            old(self).wf(),
            forall|c: char| pred.requires((c,)),
            forall|c: char, b: bool| pred.ensures((c,), b) ==> b == p(c),
        ensures
            final(self).wf(),
            final(self).moved(*old(self), scan(old(self).text(), old(self).offset() as int, p) as nat),
            s@ == old(self).text().subrange(old(self).offset() as int, final(self).offset() as int),
    {
        let ghost t = self.text();
        let ghost i = self.offset() as int;
        let s = self.consume_while(pred);
        proof {
            let j = self.offset() as int;
            assert forall|k: int| i <= k < j implies p(#[trigger] t[k]) by {
                assert(pred.ensures((t[k],), true));
            }
            if j < t.len() {
                assert(pred.ensures((t[j],), false));
            }
            lemma_scan_unique(t, i, j, p);
        }
        s
    }

    /// Collects a line comment `-- ...` up to the end of the line.
    fn collect_line_comment(&mut self) -> (s: String)
        requires
            old(self).wf(),
            pair_at(old(self).text(), old(self).offset() as int, '-', '-'),
        ensures
            final(self).wf(),
            final(self).moved(
                *old(self),
                line_comment_end(old(self).text(), old(self).offset() as int) as nat,
            ),
            s@ == old(self).text().subrange(old(self).offset() as int, final(self).offset() as int),
    {
        let ghost t = self.text();
        let ghost i = self.offset() as int;
        let mut comment = String::new();
        let c1 = self.advance().unwrap();
        string_push(&mut comment, c1);
        let c2 = self.advance().unwrap();
        string_push(&mut comment, c2);
        proof {
            assert(comment@ == t.subrange(i, i + 2));
        }
        let rest = self.consume_matching(is_not_newline, Ghost(not_newline()));
        comment.append(rest.as_str());
        proof {
            lemma_scan(t, i + 2, not_newline());
            assert(t.subrange(i, self.offset() as int) =~= t.subrange(i, i + 2) + t.subrange(
                i + 2,
                self.offset() as int,
            ));
        }
        comment
    }

    /// Collects a block comment `/- ... -/`, nested comments included.
    fn collect_block_comment(&mut self) -> (s: String)
        requires
            old(self).wf(),
            pair_at(old(self).text(), old(self).offset() as int, '/', '-'),
        ensures
            final(self).wf(),
            final(self).moved(
                *old(self),
                block_comment_end(old(self).text(), old(self).offset() as int + 2, 1) as nat,
            ),
            s@ == old(self).text().subrange(old(self).offset() as int, final(self).offset() as int),
    {
        let ghost t = self.text();
        let ghost i = self.offset() as int;
        proof { self.lemma_wf(); }
        let mut comment = String::new();
        let mut depth: usize = 1;
        let c1 = self.advance().unwrap();
        string_push(&mut comment, c1);
        let c2 = self.advance().unwrap();
        string_push(&mut comment, c2);
        proof {
            assert(comment@ == t.subrange(i, i + 2));
        }
        while depth > 0
            invariant
                self.wf(),
                self.moved(*old(self), self.offset()),
                t == self.text(),
                0 <= i,
                i + 2 <= self.offset() <= t.len(),
                depth <= self.offset(),
                comment@ == t.subrange(i, self.offset() as int),
                block_comment_end(t, i + 2, 1) == block_comment_end(
                    t,
                    self.offset() as int,
                    depth as nat,
                ),
            ensures
                self.wf(),
                self.moved(*old(self), self.offset()),
                comment@ == t.subrange(i, self.offset() as int),
                self.offset() == block_comment_end(t, i + 2, 1),
            decreases t.len() - self.offset(),
        {
            proof { self.lemma_wf(); }
            let ghost off = self.offset() as int;
            match (self.peek(), self.peek_nth(1)) {
                (Some('/'), Some('-')) => {
                    let a = self.advance().unwrap();
                    string_push(&mut comment, a);
                    let b = self.advance().unwrap();
                    string_push(&mut comment, b);
                    depth += 1;
                    proof {
                        lemma_subrange_push(t, i, off);
                        lemma_subrange_push(t, i, off + 1);
                    }
                },
                (Some('-'), Some('/')) => {
                    let a = self.advance().unwrap();
                    string_push(&mut comment, a);
                    let b = self.advance().unwrap();
                    string_push(&mut comment, b);
                    depth -= 1;
                    proof {
                        lemma_subrange_push(t, i, off);
                        lemma_subrange_push(t, i, off + 1);
                    }
                },
                (Some(_), _) => {
                    let a = self.advance().unwrap();
                    string_push(&mut comment, a);
                    proof {
                        lemma_subrange_push(t, i, off);
                    }
                },
                (None, _) => {
                    break;
                },
            }
        }
        comment
    }

    /// Collects a documentation comment `/-- ... -/` or `/-! ... -/`.
    fn collect_doc_comment(&mut self) -> (s: String)
        requires
            old(self).wf(),
            pair_at(old(self).text(), old(self).offset() as int, '/', '-'),
            old(self).offset() + 2 < old(self).text().len(),
        ensures
            final(self).wf(),
            final(self).moved(
                *old(self),
                doc_comment_end(old(self).text(), old(self).offset() as int + 3) as nat,
            ),
            s@ == old(self).text().subrange(old(self).offset() as int, final(self).offset() as int),
    {
        let ghost t = self.text();
        let ghost i = self.offset() as int;
        proof { self.lemma_wf(); }
        let mut comment = String::new();
        let c1 = self.advance().unwrap();
        string_push(&mut comment, c1);
        let c2 = self.advance().unwrap();
        string_push(&mut comment, c2);
        let c3 = self.advance().unwrap();
        string_push(&mut comment, c3);
        proof {
            assert(comment@ == t.subrange(i, i + 3));
        }
        loop
            invariant_except_break
                doc_comment_end(t, i + 3) == doc_comment_end(t, self.offset() as int),
            invariant
                self.wf(),
                self.moved(*old(self), self.offset()),
                t == self.text(),
                0 <= i,
                i + 3 <= self.offset() <= t.len(),
                comment@ == t.subrange(i, self.offset() as int),
            ensures
                self.wf(),
                self.moved(*old(self), self.offset()),
                comment@ == t.subrange(i, self.offset() as int),
                self.offset() == doc_comment_end(t, i + 3),
            decreases t.len() - self.offset(),
        {
            proof { self.lemma_wf(); }
            let ghost off = self.offset() as int;
            match self.peek() {
                Some(ch) => {
                    if ch == '-' && self.peek_nth(1) == Some('/') {
                        let a = self.advance().unwrap();
                        string_push(&mut comment, a);
                        let b = self.advance().unwrap();
                        string_push(&mut comment, b);
                        proof {
                            lemma_subrange_push(t, i, off);
                            lemma_subrange_push(t, i, off + 1);
                        }
                        break;
                    } else {
                        let a = self.advance().unwrap();
                        string_push(&mut comment, a);
                        proof {
                            lemma_subrange_push(t, i, off);
                        }
                    }
                },
                None => {
                    break;
                },
            }
        }
        comment
    }

    /// Collects the run of whitespace at the cursor, if any, as trivia.
    fn collect_whitespace(&mut self)
        requires
            old(self).wf(),
        ensures
            final(self).wf(),
            final(self).moved_trivia(*old(self), scan(old(self).text(), old(self).offset() as int, ws()) as nat),
            ({
                let i = old(self).offset() as int;
                let j = final(self).offset() as int;
                let spans = if j > i { seq![(TriviaKind::Whitespace, i, j)] } else { Seq::empty() };
                &&& final(self).trivia().len() >= old(self).trivia().len()
                &&& final(self).trivia().subrange(0, old(self).trivia().len() as int) == old(self).trivia()
                &&& trivia_list_matches(final(self).trivia().skip(old(self).trivia().len() as int), old(self).text(), spans)
            }),
    {
        proof {
            self.lemma_wf();
            lemma_scan(self.text(), self.offset() as int, ws());
        }
        let start = self.position();
        let whitespace = self.consume_matching(is_whitespace, Ghost(ws()));
        if !whitespace.as_str().is_empty() {
            let range = SourceRange { start, end: self.position() };
            self.leading_trivia.push(Trivia { kind: TriviaKind::Whitespace, range, text: whitespace });
        }
        proof {
            let n = old(self).trivia().len() as int;
            assert(self.trivia().subrange(0, n) =~= old(self).trivia());
            if self.trivia().len() > n {
                assert(self.trivia().skip(n) =~= seq![self.trivia().last()]);
                assert(trivia_matches(
                    self.trivia().skip(n)[0],
                    old(self).text(),
                    (TriviaKind::Whitespace, old(self).offset() as int, self.offset() as int),
                ));
            } else {
                assert(self.trivia().skip(n) =~= Seq::<Trivia>::empty());
            }
        }
    }

    /// Collects the comment at the cursor, if one starts there, as trivia.
    fn collect_comment(&mut self) -> (found: bool)
        requires
            old(self).wf(),
        ensures
            final(self).wf(),
            found == (comment_at(old(self).text(), old(self).offset() as int) is Some),
            !found ==> final(self).moved(*old(self), old(self).offset()),
            found ==> ({
                let (k, e) = comment_at(old(self).text(), old(self).offset() as int).unwrap();
                &&& final(self).moved_trivia(*old(self), e as nat)
                &&& final(self).trivia().len() == old(self).trivia().len() + 1
                &&& final(self).trivia().drop_last() == old(self).trivia()
                &&& trivia_matches(final(self).trivia().last(), old(self).text(), (k, old(self).offset() as int, e))
            }),
    {
        proof { self.lemma_wf(); }
        let ghost t = self.text();
        let ghost j = self.offset() as int;
        proof {
            lemma_comment_at(t, j);
            if j + 3 <= t.len() {
                lemma_doc_comment_end(t, j + 3);
            }
            if j + 2 <= t.len() {
                lemma_block_comment_end(t, j + 2, 1);
                lemma_scan(t, j + 2, not_newline());
            }
        }
        if self.peek() == Some('/') && self.peek_nth(1) == Some('-') {
            assert(pair_at(t, j, '/', '-'));
            let comment_start = self.position();
            if self.peek_nth(2) == Some('-') || self.peek_nth(2) == Some('!') {
                assert(j + 2 < t.len() && (t[j + 2] == '-' || t[j + 2] == '!'));
                let comment_text = self.collect_doc_comment();
                let range = SourceRange { start: comment_start, end: self.position() };
                self.leading_trivia.push(Trivia { kind: TriviaKind::DocComment, range, text: comment_text });
                assert(comment_at(t, j) == Some((TriviaKind::DocComment, self.offset() as int)));
            } else {
                let comment_text = self.collect_block_comment();
                let range = SourceRange { start: comment_start, end: self.position() };
                self.leading_trivia.push(Trivia { kind: TriviaKind::BlockComment, range, text: comment_text });
                assert(comment_at(t, j) == Some((TriviaKind::BlockComment, self.offset() as int)));
            }
            assert(self.trivia().drop_last() =~= old(self).trivia());
            true
        } else if self.peek() == Some('-') && self.peek_nth(1) == Some('-') {
            let comment_start = self.position();
            let comment_text = self.collect_line_comment();
            let range = SourceRange { start: comment_start, end: self.position() };
            self.leading_trivia.push(Trivia { kind: TriviaKind::LineComment, range, text: comment_text });
            assert(comment_at(t, j) == Some((TriviaKind::LineComment, self.offset() as int)));
            assert(self.trivia().drop_last() =~= old(self).trivia());
            true
        } else {
            false
        }
    }

    /// Collects the whitespace and comments at the cursor as leading trivia
    /// of the next token.
    fn collect_leading_trivia(&mut self)
        requires
            old(self).wf(),
        ensures
            final(self).wf(),
            final(self).skipped(*old(self)),
    {
        let ghost t = self.text();
        let ghost i0 = self.offset() as int;
        let ghost t0 = self.trivia();
        let ghost mut acc: Seq<(TriviaKind, int, int)> = Seq::empty();
        proof {
            self.lemma_wf();
            assert(self.trivia().subrange(0, t0.len() as int) =~= t0);
            assert(self.trivia().skip(t0.len() as int) =~= Seq::<Trivia>::empty());
        }
        loop
            invariant_except_break
                acc + trivia_spans(t, self.offset() as int) == trivia_spans(t, i0),
                trivia_end(t, i0) == trivia_end(t, self.offset() as int),
                trivia_list_matches(self.trivia().skip(t0.len() as int), t, acc),
            invariant
                self.wf(),
                self.same_context(*old(self)),
                t == self.text(),
                i0 <= self.offset() <= t.len(),
                t0.len() <= self.trivia().len(),
                self.trivia().subrange(0, t0.len() as int) == t0,
            ensures
                self.offset() == trivia_end(t, i0),
                trivia_list_matches(self.trivia().skip(t0.len() as int), t, trivia_spans(t, i0)),
            decreases t.len() - self.offset(),
        {
            proof { self.lemma_wf(); }
            let ghost off = self.offset() as int;
            let ghost before = self.trivia();
            self.collect_whitespace();
            let ghost j = self.offset() as int;
            let ghost mid = self.trivia();
            proof {
                lemma_scan(t, off, ws());
                lemma_comment_at(t, j);
            }
            let ghost wspan: Seq<(TriviaKind, int, int)> = if j > off {
                seq![(TriviaKind::Whitespace, off, j)]
            } else {
                Seq::empty()
            };
            let found = self.collect_comment();
            proof {
                let n = t0.len() as int;
                let bn = before.len() as int;
                assert(mid.subrange(0, n) =~= before.subrange(0, n));
                assert(mid.skip(n) =~= before.skip(n) + mid.skip(bn));
                assert(trivia_list_matches(mid.skip(n), t, acc + wspan));
            }
            if !found {
                proof {
                    assert(trivia_spans(t, off) == wspan);
                    acc = acc + wspan;
                }
                break;
            }
            proof {
                let n = t0.len() as int;
                let e = self.offset() as int;
                let k = self.trivia().last().kind;
                assert(trivia_spans(t, off) == wspan + seq![(k, j, e)] + trivia_spans(t, e));
                assert(self.trivia().skip(n) =~= mid.skip(n).push(self.trivia().last()));
                assert(self.trivia().subrange(0, n) =~= mid.subrange(0, n));
                acc = acc + wspan + seq![(k, j, e)];
                assert(acc + trivia_spans(t, e) =~= trivia_spans(t, i0));
            }
        }
    }

    /// Skips whitespace and comments, keeping them as leading trivia of the
    /// next token.
    pub fn skip_whitespace(&mut self)
        requires
            old(self).wf(),
        ensures
            final(self).wf(),
            final(self).skipped(*old(self)),
    {
        self.collect_leading_trivia();
    }

    /// The same as `skip_whitespace`: comments are trivia too.
    pub fn skip_whitespace_and_comments(&mut self)
        requires
            old(self).wf(),
        ensures
            final(self).wf(),
            final(self).skipped(*old(self)),
    {
        self.skip_whitespace();
    }

    /// Takes the collected trivia, leaving none.
    pub fn take_leading_trivia(&mut self) -> (t: Vec<Trivia>)
        ensures
            final(self).wf() == old(self).wf(),
            final(self).same_context(*old(self)),
            final(self).offset() == old(self).offset(),
            final(self).trivia().len() == 0,
            t@ == old(self).trivia(),
    {
        let mut t: Vec<Trivia> = Vec::new();
        std::mem::swap(&mut t, &mut self.leading_trivia);
        t
    }

    /// A copy of the collected trivia.
    pub fn save_leading_trivia(&self) -> (t: Vec<Trivia>)
        ensures
            t@.len() == self.trivia().len(),
            forall|k: int|
                0 <= k < t@.len() ==> (#[trigger] t@[k]).kind == self.trivia()[k].kind
                    && t@[k].range == self.trivia()[k].range && t@[k].text@
                    == self.trivia()[k].text@,
    {
        let mut t: Vec<Trivia> = Vec::new();
        let mut i: usize = 0;
        while i < self.leading_trivia.len()
            invariant
                i <= self.leading_trivia@.len(),
                t@.len() == i,
                forall|k: int|
                    0 <= k < i ==> (#[trigger] t@[k]).kind == self.leading_trivia@[k].kind
                        && t@[k].range == self.leading_trivia@[k].range && t@[k].text@
                        == self.leading_trivia@[k].text@,
            decreases self.leading_trivia@.len() - i,
        {
            t.push(self.leading_trivia[i].duplicate());
            i += 1;
        }
        t
    }

    /// Replaces the collected trivia.
    pub fn restore_leading_trivia(&mut self, trivia: Vec<Trivia>)
        ensures
            final(self).wf() == old(self).wf(),
            final(self).same_context(*old(self)),
            final(self).offset() == old(self).offset(),
            final(self).trivia() == trivia@,
    {
        self.leading_trivia = trivia;
    }

    /// `self` is `other` with its collected trivia taken.
    pub open spec fn took_trivia(self, other: Parser) -> bool {
        &&& self.same_context(other)
        &&& self.offset() == other.offset()
        &&& self.trivia().len() == 0
    }

    /// A node that carries the collected trivia, which it takes.
    pub fn create_node(&mut self, kind: SyntaxKind, range: SourceRange, children: Vec<Syntax>) -> (s: Syntax)
        ensures
            final(self).wf() == old(self).wf(),
            final(self).took_trivia(*old(self)),
            is_node(s, kind, range, children@, old(self).trivia()),
    {
        let leading_trivia = self.take_leading_trivia();
        let mut node = SyntaxNode::new(kind, range, children);
        node.leading_trivia = leading_trivia;
        Syntax::Node(Box::new(node))
    }

    /// An atom that carries the collected trivia, which it takes.
    pub fn create_atom(&mut self, range: SourceRange, value: String) -> (s: Syntax)
        ensures
            final(self).wf() == old(self).wf(),
            final(self).took_trivia(*old(self)),
            is_atom(s, range, value@, old(self).trivia()),
    {
        let leading_trivia = self.take_leading_trivia();
        let mut atom = SyntaxAtom::new(range, value);
        atom.leading_trivia = leading_trivia;
        Syntax::Atom(atom)
    }

    /// Does `keyword` stand at the cursor, not followed by an identifier
    /// character?
    pub fn peek_keyword(&self, keyword: &str) -> (b: bool)
        requires
            self.wf(),
        ensures
            b == keyword_at(self.text(), self.offset() as int, keyword@),
    {
        proof { self.lemma_wf(); }
        let n = keyword.unicode_len();
        let mut i: usize = 0;
        while i < n
            invariant
                self.wf(),
                n == keyword@.len(),
                i <= n,
                self.offset() + i <= self.text().len(),
                self.text().subrange(self.offset() as int, self.offset() + i) == keyword@.take(
                    i as int,
                ),
            decreases n - i,
        {
            match self.peek_nth(i) {
                Some(ch) => {
                    if ch != keyword.get_char(i) {
                        proof {
                            if self.offset() + n <= self.text().len() {
                                assert(self.text().subrange(self.offset() as int, self.offset() + n)[i as int]
                                    == self.text()[self.offset() + i]);
                            }
                        }
                        return false;
                    }
                },
                None => {
                    return false;
                },
            }
            proof {
                lemma_subrange_push(self.text(), self.offset() as int, self.offset() + i);
                assert(keyword@.take(i + 1) == keyword@.take(i as int).push(keyword@[i as int]));
            }
            i += 1;
        }
        assert(keyword@.take(n as int) == keyword@);
        match self.peek_nth(n) {
            Some(ch) => !is_id_continue(ch),
            None => true,
        }
    }

    /// Consumes `keyword` if it stands at the cursor (see `peek_keyword`);
    /// otherwise fails, saying that `keyword 'kw'` was expected. Whitespace
    /// is not skipped.
    pub fn keyword(&mut self, kw: &str) -> (r: ParserResult<()>)
        requires
            old(self).wf(),
        ensures
            final(self).wf(),
            keyword_at(old(self).text(), old(self).offset() as int, kw@) ==> r is Ok
                && final(self).moved(*old(self), (old(self).offset() + kw@.len()) as nat),
            !keyword_at(old(self).text(), old(self).offset() as int, kw@) ==> final(self).moved(
                *old(self),
                old(self).offset(),
            ) && (r matches Err(e) && is_expected(
                *e,
                "keyword '"@ + kw@ + "'"@,
                old(self).pos(),
            )),
    {
        let start = self.position();
        if !self.peek_keyword(kw) {
            let mut what = String::from_str("keyword '");
            what.append(kw);
            what.append("'");
            return Err(
                Box::new(ParseError { kind: ParseErrorKind::Expected(what), position: start }),
            );
        }
        let n = kw.unicode_len();
        let mut i: usize = 0;
        while i < n
            invariant
                self.wf(),
                n == kw@.len(),
                i <= n,
                keyword_at(old(self).text(), old(self).offset() as int, kw@),
                self.moved(*old(self), (old(self).offset() + i) as nat),
            decreases n - i,
        {
            proof { self.lemma_wf(); }
            self.advance();
            i += 1;
        }
        Ok(())
    }

    /// Does an attribute list `[name ...` seem to start at the cursor: a `[`,
    /// then spaces or tabs, then an alphabetic character or `_`?
    pub fn peek_attribute_list(&self) -> (b: bool)
        requires
            self.wf(),
        ensures
            b == attribute_list_at(self.text(), self.offset() as int),
    {
        proof { self.lemma_wf(); }
        if self.peek() == Some('[') {
            let mut offset: usize = 1;
            while self.peek_nth(offset) == Some(' ') || self.peek_nth(offset) == Some('\t')
                invariant
                    self.wf(),
                    1 <= offset,
                    self.offset() + offset <= self.text().len(),
                    self.offset() < self.text().len() && self.text()[self.offset() as int] == '[',
                    scan(self.text(), self.offset() as int + 1, blank()) == scan(
                        self.text(),
                        self.offset() as int + offset,
                        blank(),
                    ),
                decreases self.text().len() - self.offset() - offset,
            {
                proof { self.lemma_wf(); }
                offset += 1;
            }
            proof {
                lemma_scan_unique(self.text(), self.offset() as int + offset, self.offset() as int + offset, blank());
            }
            match self.peek_nth(offset) {
                Some(ch) => is_alphabetic(ch) || ch == '_',
                None => false,
            }
        } else {
            false
        }
    }

    /// Parses an identifier after skipping whitespace and comments: either a
    /// guillemet-quoted name `«...»` or a run of identifier characters. The
    /// atom spans from the cursor before the skipped trivia and carries them.
    pub fn identifier(&mut self) -> (r: ParserResult<Syntax>)
        requires
            old(self).wf(),
        ensures
            final(self).wf(),
            identifier_result(*old(self), *final(self), r),
    {
        let ghost t = self.text();
        let ghost i0 = self.offset() as int;
        let start = self.position();
        self.skip_whitespace();
        let ghost mid = *self;
        let ghost j = self.offset() as int;
        proof {
            self.lemma_wf();
            lemma_trivia_end(t, i0);
        }
        if self.peek() == Some('«') {
            self.advance();
            proof { lemma_scan(t, j + 1, not_close_guillemet()); }
            let name = self.consume_matching(is_not_close_guillemet, Ghost(not_close_guillemet()));
            let ghost nm = name@;
            if self.peek() == Some('»') {
                self.advance();
            } else {
                return Err(ParseError::expected("closing » for quoted identifier", self.position()));
            }
            let range = self.input.range_from(start);
            assert(ident_at(t, j) == Some((self.offset() as int, nm)));
            let ghost tr = self.trivia();
            assert(tr == mid.trivia());
            let atom = self.create_atom(range, name);
            return Ok(atom);
        }
        if !(match self.peek() {
            Some(c) => is_id_start(c),
            None => false,
        }) {
            return Err(ParseError::expected("identifier", self.position()));
        }
        proof { lemma_scan(t, j, id_char()); }
        let name = self.consume_matching(is_id_continue, Ghost(id_char()));
        let ghost nm = name@;
        let range = self.input.range_from(start);
        assert(ident_at(t, j) == Some((self.offset() as int, nm)));
        let ghost tr = self.trivia();
        assert(tr == mid.trivia());
        let atom = self.create_atom(range, name);
        Ok(atom)
    }

    /// `self` agrees with `other` on everything but the cursor and the saved
    /// positions.
    pub open spec fn same_but_cursor(self, other: Parser) -> bool {
        &&& self.text() == other.text()
        &&& self.trivia() == other.trivia()
        &&& self.errors_spec() == other.errors_spec()
        &&& self.warnings_spec() == other.warnings_spec()
        &&& self.mode_spec() == other.mode_spec()
        &&& self.category() == other.category()
        &&& self.max_errors() == other.max_errors()
    }

    /// `self` is `other` after committing: the most recent saved position,
    /// if any, is dropped and the cursor stays.
    pub open spec fn committed(self, other: Parser) -> bool {
        &&& self.same_but_cursor(other)
        &&& self.offset() == other.offset()
        &&& self.saved() == if other.saved().len() > 0 {
            other.saved().drop_last()
        } else {
            other.saved()
        }
    }

    /// `self` is `other` after restoring: the cursor returns to the most
    /// recent saved position, if any, which is dropped.
    pub open spec fn restored(self, other: Parser) -> bool {
        &&& self.same_but_cursor(other)
        &&& if other.saved().len() > 0 {
            &&& self.saved() == other.saved().drop_last()
            &&& self.offset() == other.saved().last()
        } else {
            &&& self.saved() == other.saved()
            &&& self.offset() == other.offset()
        }
    }

    /// Saves the cursor position.
    pub fn save_position(&mut self)
        requires
            old(self).wf(),
        ensures
            final(self).wf(),
            final(self).same_but_cursor(*old(self)),
            final(self).offset() == old(self).offset(),
            final(self).saved() == old(self).saved().push(old(self).offset()),
    {
        self.input.save_position();
    }

    /// Drops the most recently saved position, keeping the cursor.
    pub fn commit_position(&mut self)
        requires
            old(self).wf(),
        ensures
            final(self).wf(),
            final(self).committed(*old(self)),
    {
        self.input.commit_position();
    }

    /// Returns to the most recently saved position and drops it.
    pub fn restore_position(&mut self)
        requires
            old(self).wf(),
        ensures
            final(self).wf(),
            final(self).restored(*old(self)),
    {
        self.input.restore_position();
    }

    /// Skipping whitespace and comments loses nothing: the trivia that
    /// `skip_whitespace` adds after those collected before, their texts read
    /// in order, spell exactly the text it skipped; it stops at the end of the
    /// text or before a character that is neither whitespace nor the start of
    /// a comment.
    pub proof fn law_skip_whitespace_lossless(p: Parser, q: Parser)
        requires
            p.wf(),
            q.skipped(p),
        ensures
            trivia_text(q.trivia().skip(p.trivia().len() as int)) == p.text().subrange(p.offset() as int, q.offset() as int),
            q.offset() < q.text().len() ==> !spec_is_whitespace(q.text()[q.offset() as int]),
            comment_at(q.text(), q.offset() as int) is None,
    {
        p.lemma_wf();
        crate::scan::law_trivia_lossless(p.trivia(), q.trivia(), p.text(), p.offset() as int);
    }

    /// Backtracking: after the cursor is saved, and whatever parsing then
    /// leaves the saved positions as they were, restoring brings the cursor
    /// back to where it was saved and drops the saved position.
    pub proof fn law_restore_returns_to_save(p: Parser, s: Parser, m: Parser, r: Parser)
        requires
            p.wf(),
            s.same_but_cursor(p),
            s.offset() == p.offset(),
            s.saved() == p.saved().push(p.offset()),
            m.saved() == s.saved(),
            r.restored(m),
        ensures
            r.offset() == p.offset(),
            r.saved() == p.saved(),
    {
        p.lemma_wf();
        assert(p.saved().push(p.offset()).drop_last() =~= p.saved());
    }

    /// Runs `f`; if it fails, the cursor returns to where it was (the
    /// trivia, errors and warnings that `f` added stay). Where `f` leaves
    /// the saved positions as it found them, so does this, and the cursor
    /// ends where `f` left it on success and where it was on failure.
    pub fn try_parse<F, T>(&mut self, f: F) -> (r: ParserResult<T>) where
        F: FnOnce(&mut Parser) -> ParserResult<T>,
        requires
            old(self).wf(),
            forall|q: &mut Parser| q.wf() ==> f.requires((q,)),
            forall|q: &mut Parser, x: ParserResult<T>| f.ensures((q,), x) ==> final(q).wf(),
        ensures
            final(self).wf(),
            exists|q: &mut Parser|
                #![trigger f.ensures((q,), r)]
                {
                    &&& q.wf()
                    &&& q.same_but_cursor(*old(self))
                    &&& q.offset() == old(self).offset()
                    &&& q.saved() == old(self).saved().push(old(self).offset())
                    &&& f.ensures((q,), r)
                    &&& r is Ok ==> final(self).committed(*final(q))
                    &&& r is Err ==> final(self).restored(*final(q))
                    &&& final(q).saved() == q.saved() ==> {
                        &&& final(self).saved() == old(self).saved()
                        &&& r is Ok ==> final(self).offset() == final(q).offset()
                        &&& r is Err ==> final(self).offset() == old(self).offset()
                    }
                },
    {
        proof {
            old(self).lemma_wf();
            assert(old(self).saved().push(old(self).offset()).drop_last() =~= old(self).saved());
        }
        self.save_position();
        assert(f.requires((self,)));
        match f(self) {
            Ok(result) => {
                self.commit_position();
                Ok(result)
            },
            Err(e) => {
                self.restore_position();
                Err(e)
            },
        }
    }

    /// Runs `f` in syntax category `category`, then restores the previous
    /// category.
    pub fn with_category<T, F>(&mut self, category: &str, f: F) -> (r: T) where
        F: FnOnce(&mut Parser) -> T,
        requires
            old(self).wf(),
            forall|q: &mut Parser| q.wf() ==> f.requires((q,)),
        ensures
            exists|q: &mut Parser|
                #![trigger f.ensures((q,), r)]
                {
                    &&& q.wf()
                    &&& q.text() == old(self).text()
                    &&& q.offset() == old(self).offset()
                    &&& q.saved() == old(self).saved()
                    &&& q.trivia() == old(self).trivia()
                    &&& q.errors_spec() == old(self).errors_spec()
                    &&& q.mode_spec() == old(self).mode_spec()
                    &&& q.category() == category@
                    &&& f.ensures((q,), r)
                    &&& final(self).text() == final(q).text()
                    &&& final(self).offset() == final(q).offset()
                    &&& final(self).saved() == final(q).saved()
                    &&& final(self).trivia() == final(q).trivia()
                    &&& final(self).errors_spec() == final(q).errors_spec()
                    &&& final(self).mode_spec() == final(q).mode_spec()
                    &&& final(self).wf() == final(q).wf()
                    &&& final(self).category() == old(self).category()
                },
    {
        let old_category = self.current_category.clone();
        self.current_category = category.to_owned();
        assert(self.wf());
        assert(f.requires((self,)));
        let result = f(self);
        self.current_category = old_category;
        result
    }
}

/// An identifier quoted in guillemets reads as exactly the text between the
/// opening `«` and the first `»` after it, and the cursor ends just after
/// that `»`; without a closing `»` it fails at the end of the text.
pub proof fn law_quoted_identifier(p: Parser, q: Parser, r: ParserResult<Syntax>)
    requires
        p.wf(),
        identifier_result(p, q, r),
        trivia_end(p.text(), p.offset() as int) < p.text().len(),
        p.text()[trivia_end(p.text(), p.offset() as int)] == '«',
    ensures
        ({
            let t = p.text();
            let j = trivia_end(t, p.offset() as int);
            &&& forall|k: int| j < k < t.len() && t[k] == '»' && (forall|m: int| j < m < k ==> #[trigger] t[m] != '»') ==> (
                q.offset() == k + 1 && (r matches Ok(s) && (s matches Syntax::Atom(a) && a.value@ == t.subrange(j + 1, k))))
            &&& (forall|m: int| j < m < t.len() ==> #[trigger] t[m] != '»') ==> (r is Err && q.offset() == t.len())
        }),
{
    let t = p.text();
    p.lemma_wf();
    lemma_trivia_end(t, p.offset() as int);
    let j = trivia_end(t, p.offset() as int);
    lemma_scan(t, j + 1, not_close_guillemet());
    assert forall|k: int| j < k < t.len() && t[k] == '»' && (forall|m: int| j < m < k ==> #[trigger] t[m] != '»') implies (
        q.offset() == k + 1 && (r matches Ok(s) && (s matches Syntax::Atom(a) && a.value@ == t.subrange(j + 1, k)))) by {
        lemma_scan_unique(t, j + 1, k, not_close_guillemet());
    }
    if forall|m: int| j < m < t.len() ==> #[trigger] t[m] != '»' {
        lemma_scan_unique(t, j + 1, t.len() as int, not_close_guillemet());
    }
}

/// A plain identifier reads as the text it spans, which starts where the
/// whitespace and comments end; it starts with a letter or `_` (never a
/// digit), and never stops right before an ASCII letter, a digit, `_`, `'`,
/// `!` or `?`.
pub proof fn law_plain_identifier(p: Parser, q: Parser, r: ParserResult<Syntax>)
    requires
        p.wf(),
        identifier_result(p, q, r),
        !(trivia_end(p.text(), p.offset() as int) < p.text().len() && p.text()[trivia_end(p.text(), p.offset() as int)] == '«'),
    ensures
        ({
            let t = p.text();
            let j = trivia_end(t, p.offset() as int);
            &&& (j < t.len() && (('a' <= t[j] <= 'z') || ('A' <= t[j] <= 'Z') || t[j] == '_')) ==> r is Ok
            &&& (j < t.len() && '0' <= t[j] <= '9') ==> r is Err
            &&& j >= t.len() ==> r is Err
            &&& r matches Ok(s) ==> (s matches Syntax::Atom(a) && {
                &&& j < q.offset() <= t.len()
                &&& a.value@ == t.subrange(j, q.offset() as int)
                &&& q.offset() < t.len() ==> {
                    let c = t[q.offset() as int];
                    !(('a' <= c <= 'z') || ('A' <= c <= 'Z') || ('0' <= c <= '9') || c == '_' || c == '\'' || c == '!' || c == '?')
                }
            })
        }),
{
    let t = p.text();
    p.lemma_wf();
    lemma_trivia_end(t, p.offset() as int);
    let j = trivia_end(t, p.offset() as int);
    if j < t.len() {
        lemma_scan(t, j, id_char());
    }
}

} // verus!
