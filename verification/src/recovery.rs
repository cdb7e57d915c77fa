//! Error recovery: skipping to a point where parsing can resume, and
//! parsing delimited lists that go on after a bad item.
use vstd::prelude::*;
use crate::error::{ParseError, ParseErrorKind, ParserResult, same_error, is_expected, is_eof};
use crate::input::string_push;
use crate::parser::{Parser, keyword_at, is_node, is_atom};
use crate::literals::expect_error;
use crate::scan::{trivia_end, lemma_trivia_end};
use crate::syntax::{pos_at, range_at, SourceRange, Syntax, SyntaxKind};

verus! {

/// How to recover from a parse error.
#[derive(Debug, Clone, Copy, PartialEq, Eq)]
pub enum RecoveryStrategy {
    /// Skip to the next statement or command.
    SkipToNextStatement,
    /// Skip to the delimiter that closes the current group.
    SkipToDelimiter(char),
    /// Skip to one of several keywords.
    SkipToTokens(&'static [&'static str]),
    /// Insert the missing token and go on.
    InsertToken(&'static str),
    /// Try another parse.
    TryAlternative,
}

/// A keyword that starts a statement stands at `i`: `def`, `theorem`,
/// `instance`, `inductive`, `structure`, `class`, `axiom`, `constant`,
/// `variable`, `namespace`, `end` or `#`.
pub open spec fn statement_start_at(t: Seq<char>, i: int) -> bool {
    ||| keyword_at(t, i, "def"@)
    ||| keyword_at(t, i, "theorem"@)
    ||| keyword_at(t, i, "instance"@)
    ||| keyword_at(t, i, "inductive"@)
    ||| keyword_at(t, i, "structure"@)
    ||| keyword_at(t, i, "class"@)
    ||| keyword_at(t, i, "axiom"@)
    ||| keyword_at(t, i, "constant"@)
    ||| keyword_at(t, i, "variable"@)
    ||| keyword_at(t, i, "namespace"@)
    ||| keyword_at(t, i, "end"@)
    ||| keyword_at(t, i, "#"@)
}

/// The first index at or after `i` where a statement starts, or the end.
pub open spec fn next_statement(t: Seq<char>, i: int) -> int
    decreases t.len() - i,
{
    if i < 0 || i >= t.len() || statement_start_at(t, i) {
        i
    } else {
        next_statement(t, i + 1)
    }
}

/// The brackets that `close` closes, if it is a closing bracket.
pub open spec fn bracket_pair(close: char) -> Option<(char, char)> {
    if close == ')' {
        Some(('(', ')'))
    } else if close == ']' {
        Some(('[', ']'))
    } else if close == '}' {
        Some(('{', '}'))
    } else {
        None
    }
}

/// Where skipping to the closing bracket stops, from `i` inside `depth`
/// open groups: at the `close` that closes the outermost one, or the end.
pub open spec fn delimiter_end(t: Seq<char>, i: int, depth: nat, open: char, close: char) -> int
    decreases t.len() - i,
{
    if depth == 0 || i < 0 || i >= t.len() {
        i
    } else if t[i] == open {
        delimiter_end(t, i + 1, depth + 1, open, close)
    } else if t[i] == close {
        if depth == 1 {
            i
        } else {
            delimiter_end(t, i + 1, (depth - 1) as nat, open, close)
        }
    } else {
        delimiter_end(t, i + 1, depth, open, close)
    }
}

/// One of the keywords `toks` stands at `i`.
pub open spec fn token_at(t: Seq<char>, i: int, toks: Seq<Seq<char>>) -> bool {
    exists|k: int| 0 <= k < toks.len() && keyword_at(t, i, #[trigger] toks[k])
}

/// The first index at or after `i` where one of `toks` stands, or the end.
pub open spec fn next_token(t: Seq<char>, i: int, toks: Seq<Seq<char>>) -> int
    decreases t.len() - i,
{
    if i < 0 || i >= t.len() || token_at(t, i, toks) {
        i
    } else {
        next_token(t, i + 1, toks)
    }
}

/// Where `synchronize` stops from `i`: at `def`, `theorem`, `instance`,
/// `end`, a newline, or the end.
pub open spec fn sync_point(t: Seq<char>, i: int) -> int
    decreases t.len() - i,
{
    if i < 0 || i >= t.len() || keyword_at(t, i, "def"@) || keyword_at(t, i, "theorem"@)
        || keyword_at(t, i, "instance"@) || keyword_at(t, i, "end"@) || t[i] == '\n' {
        i
    } else {
        sync_point(t, i + 1)
    }
}

/// The views of a list of keywords.
pub open spec fn token_views(tokens: Seq<&str>) -> Seq<Seq<char>> {
    tokens.map_values(|s: &str| s@)
}

/// `q` and `s` are `p` after skipping to `e`: an error node spanning what
/// was skipped, carrying the collected trivia.
pub open spec fn skipped_to(p: Parser, q: Parser, s: Syntax, e: int) -> bool {
    &&& q.same_context(p)
    &&& q.trivia().len() == 0
    &&& q.offset() == e
    &&& is_node(s, SyntaxKind::Error, range_at(p.text(), p.offset(), e as nat), Seq::empty(), p.trivia())
}

/// What a recovery strategy does from `p`, ending in `q` with the syntax
/// `s` it produces.
pub open spec fn recovery_result(p: Parser, q: Parser, s: Syntax, strategy: RecoveryStrategy) -> bool {
    let t = p.text();
    let i = p.offset() as int;
    match strategy {
        RecoveryStrategy::SkipToDelimiter(c) => match bracket_pair(c) {
            Some((open, close)) => skipped_to(p, q, s, delimiter_end(t, i, 1, open, close)),
            None => skipped_to(p, q, s, next_statement(t, i)),
        },
        RecoveryStrategy::SkipToTokens(tokens) => skipped_to(p, q, s, next_token(t, i, token_views(tokens@))),
        RecoveryStrategy::InsertToken(token) => {
            &&& q.same_context(p)
            &&& q.trivia().len() == 0
            &&& q.offset() == i
            &&& is_atom(s, range_at(t, i as nat, i as nat), token@, p.trivia())
        },
        _ => skipped_to(p, q, s, next_statement(t, i)),
    }
}

/// Skipping to a character that closes no bracket is skipping to the next
/// statement.
pub proof fn law_plain_delimiter_is_next_statement(p: Parser, q: Parser, s: Syntax, c: char)
    requires
        bracket_pair(c) is None,
    ensures
        recovery_result(p, q, s, RecoveryStrategy::SkipToDelimiter(c)) == recovery_result(p, q, s, RecoveryStrategy::SkipToNextStatement),
{
}

proof fn lemma_next_statement(t: Seq<char>, i: int)
    requires
        0 <= i <= t.len(),
    ensures
        i <= next_statement(t, i) <= t.len(),
    decreases t.len() - i,
{
    if i < t.len() && !statement_start_at(t, i) {
        lemma_next_statement(t, i + 1);
    }
}

proof fn lemma_next_token(t: Seq<char>, i: int, toks: Seq<Seq<char>>)
    requires
        0 <= i <= t.len(),
    ensures
        i <= next_token(t, i, toks) <= t.len(),
    decreases t.len() - i,
{
    if i < t.len() && !token_at(t, i, toks) {
        lemma_next_token(t, i + 1, toks);
    }
}

proof fn lemma_delimiter_end(t: Seq<char>, i: int, depth: nat, open: char, close: char)
    requires
        0 <= i <= t.len(),
    ensures
        i <= delimiter_end(t, i, depth, open, close) <= t.len(),
    decreases t.len() - i,
{
    if depth == 0 || i >= t.len() {
    } else if t[i] == open {
        lemma_delimiter_end(t, i + 1, depth + 1, open, close);
    } else if t[i] == close {
        if depth != 1 {
            lemma_delimiter_end(t, i + 1, (depth - 1) as nat, open, close);
        }
    } else {
        lemma_delimiter_end(t, i + 1, depth, open, close);
    }
}

proof fn lemma_sync_point(t: Seq<char>, i: int)
    requires
        0 <= i <= t.len(),
    ensures
        i <= sync_point(t, i) <= t.len(),
    decreases t.len() - i,
{
    if !(i >= t.len() || keyword_at(t, i, "def"@) || keyword_at(t, i, "theorem"@)
        || keyword_at(t, i, "instance"@) || keyword_at(t, i, "end"@) || t[i] == '\n') {
        lemma_sync_point(t, i + 1);
    }
}

/// A call of the item parser inside a delimited list: where the cursor
/// stood and ended, what came back, the errors recorded before and after
/// the call, and the errors the list then added for this item.
pub ghost struct ItemCall<T> {
    pub start: int,
    pub end: int,
    pub result: ParserResult<T>,
    pub before: Seq<ParseError>,
    pub after: Seq<ParseError>,
    pub added: Seq<ParseError>,
}

/// The list is still open at `k`: a character other than `close` follows.
pub open spec fn list_open(t: Seq<char>, close: char, k: int) -> bool {
    0 <= k < t.len() && t[k] != close
}

/// Where skipping after a bad item stops, from `k`: at `close` (not
/// consumed), after the next separator and the whitespace and comments that
/// follow it, or at the end.
pub open spec fn skip_sep_end(t: Seq<char>, k: int, close: char, sep: Option<char>) -> int
    decreases t.len() - k,
{
    if k < 0 || k >= t.len() {
        k
    } else if t[k] == close {
        k
    } else if sep matches Some(c) && t[k] == c {
        trivia_end(t, k + 1)
    } else {
        skip_sep_end(t, k + 1, close, sep)
    }
}

/// Where the cursor stands after an item, before its separator: after the
/// item, or after skipping past a bad one, and the whitespace that follows.
pub open spec fn item_stop<T>(t: Seq<char>, close: char, sep: Option<char>, c: ItemCall<T>) -> int {
    if c.result is Ok {
        trivia_end(t, c.end)
    } else {
        trivia_end(t, skip_sep_end(t, c.end, close, sep))
    }
}

/// After the item `c` a separator is missing: one is expected and neither
/// it nor `close` follows.
pub open spec fn sep_missing<T>(t: Seq<char>, close: char, sep: Option<char>, c: ItemCall<T>) -> bool {
    let k = item_stop(t, close, sep, c);
    sep matches Some(s) && !(0 <= k < t.len() && (t[k] == s || t[k] == close))
}

/// Where the next item starts after `c`: past its separator and the
/// whitespace after it, when one follows.
pub open spec fn item_next<T>(t: Seq<char>, close: char, sep: Option<char>, c: ItemCall<T>) -> int {
    let k = item_stop(t, close, sep, c);
    if sep matches Some(s) && 0 <= k < t.len() && t[k] == s {
        trivia_end(t, k + 1)
    } else {
        k
    }
}

/// The errors the list adds for item `c`: the error it failed with, if it
/// failed, then the missing separator, if one is missing.
pub open spec fn item_errors<T>(t: Seq<char>, close: char, sep: Option<char>, c: ItemCall<T>) -> bool {
    let bad: int = if c.result is Err { 1 } else { 0 };
    let miss: int = if sep_missing(t, close, sep, c) { 1 } else { 0 };
    &&& c.added.len() == bad + miss
    &&& c.result matches Err(e) ==> c.added[0] == *e
    &&& sep_missing(t, close, sep, c) ==> is_expected(
        c.added.last(),
        seq!['\'', sep->Some_0, '\''],
        pos_at(t, item_stop(t, close, sep, c) as nat),
    )
}

/// Where the list stands before call `m` of `calls`, having started at `k0`.
pub open spec fn list_pos<T>(t: Seq<char>, close: char, sep: Option<char>, k0: int, calls: Seq<ItemCall<T>>, m: int) -> int {
    if m == 0 {
        k0
    } else {
        item_next(t, close, sep, calls[m - 1])
    }
}

/// The errors recorded before call `m` of `calls`, `e0` before the first.
pub open spec fn list_errors<T>(e0: Seq<ParseError>, calls: Seq<ItemCall<T>>, m: int) -> Seq<ParseError> {
    if m == 0 {
        e0
    } else {
        calls[m - 1].after + calls[m - 1].added
    }
}

/// `calls` are the item calls of a list whose items start at `k0` with the
/// errors `e0` recorded: each starts where the one before left the list,
/// while the list is open, and the list adds its errors after each.
pub open spec fn list_calls<T>(t: Seq<char>, close: char, sep: Option<char>, k0: int, e0: Seq<ParseError>, calls: Seq<ItemCall<T>>) -> bool {
    forall|m: int|
        0 <= m < calls.len() ==> {
            &&& #[trigger] calls[m].start == list_pos(t, close, sep, k0, calls, m)
            &&& list_open(t, close, calls[m].start)
            &&& calls[m].before == list_errors(e0, calls, m)
            &&& item_errors(t, close, sep, calls[m])
        }
}

/// The items that the calls returned, in order.
pub open spec fn list_items<T>(calls: Seq<ItemCall<T>>) -> Seq<T>
    decreases calls.len(),
{
    if calls.len() == 0 {
        Seq::empty()
    } else {
        let rest = list_items(calls.drop_last());
        match calls.last().result {
            Ok(x) => rest.push(x),
            Err(_) => rest,
        }
    }
}

/// One more item call keeps the calls of a list consistent, and moves the
/// list to where that item leaves it.
proof fn lemma_list_step<T>(
    t: Seq<char>,
    close: char,
    sep: Option<char>,
    k0: int,
    e0: Seq<ParseError>,
    calls: Seq<ItemCall<T>>,
    call: ItemCall<T>,
)
    requires
        list_calls(t, close, sep, k0, e0, calls),
        call.start == list_pos(t, close, sep, k0, calls, calls.len() as int),
        list_open(t, close, call.start),
        call.before == list_errors(e0, calls, calls.len() as int),
        item_errors(t, close, sep, call),
    ensures
        list_calls(t, close, sep, k0, e0, calls.push(call)),
        list_pos(t, close, sep, k0, calls.push(call), calls.len() + 1int) == item_next(t, close, sep, call),
        list_errors(e0, calls.push(call), calls.len() + 1int) == call.after + call.added,
        list_items(calls.push(call)) == match call.result {
            Ok(x) => list_items(calls).push(x),
            Err(_) => list_items(calls),
        },
{
    let calls1 = calls.push(call);
    assert forall|m: int| 0 <= m < calls1.len() implies {
        &&& #[trigger] calls1[m].start == list_pos(t, close, sep, k0, calls1, m)
        &&& list_open(t, close, calls1[m].start)
        &&& calls1[m].before == list_errors(e0, calls1, m)
        &&& item_errors(t, close, sep, calls1[m])
    } by {
        if m < calls.len() {
            assert(calls1[m] == calls[m]);
            assert(calls[m].start == list_pos(t, close, sep, k0, calls, m));
            if m > 0 {
                assert(calls1[m - 1] == calls[m - 1]);
            }
        } else {
            if m > 0 {
                assert(calls1[m - 1] == calls[m - 1]);
            }
        }
    }
    assert(calls1.drop_last() =~= calls);
}

/// What a delimited list whose items start at `k0` gives, with the errors
/// `e0` recorded before them: the calls of the item parser run while the
/// list is open; it ends at `close`, consumed, with the items that the calls
/// returned, or at the end of the text with an error; the errors are those
/// the calls left and the list added.
pub open spec fn list_result<T>(
    t: Seq<char>,
    close: char,
    sep: Option<char>,
    k0: int,
    e0: Seq<ParseError>,
    calls: Seq<ItemCall<T>>,
    q: Parser,
    r: ParserResult<Vec<T>>,
) -> bool {
    let e = list_pos(t, close, sep, k0, calls, calls.len() as int);
    &&& list_calls(t, close, sep, k0, e0, calls)
    &&& !list_open(t, close, e)
    &&& q.text() == t
    &&& q.errors_spec() == list_errors(e0, calls, calls.len() as int)
    &&& if e < t.len() {
        &&& q.offset() == e + 1
        &&& r matches Ok(v) && v@ == list_items(calls)
    } else {
        &&& q.offset() == e
        &&& r matches Err(err) && is_eof(*err, pos_at(t, e as nat))
    }
}

impl Parser {
    /// Records `error`, then recovers as `strategy` says (see
    /// `recovery_result`).
    pub fn recover_from_error(&mut self, error: Box<ParseError>, strategy: RecoveryStrategy) -> (r: ParserResult<Syntax>)
        requires
            old(self).wf(),
        ensures
            final(self).wf(),
            final(self).errors_spec().len() == old(self).errors_spec().len() + 1,
            final(self).errors_spec().drop_last() == old(self).errors_spec(),
            same_error(final(self).errors_spec().last(), *error),
            strategy is InsertToken ==> final(self).offset() == old(self).offset(),
            r matches Ok(s) && exists|q: Parser|
                {
                    &&& q.wf()
                    &&& q.text() == old(self).text()
                    &&& q.offset() == old(self).offset()
                    &&& q.saved() == old(self).saved()
                    &&& q.trivia() == old(self).trivia()
                    &&& q.warnings_spec() == old(self).warnings_spec()
                    &&& q.mode_spec() == old(self).mode_spec()
                    &&& q.category() == old(self).category()
                    &&& q.max_errors() == old(self).max_errors()
                    &&& q.errors_spec().len() == old(self).errors_spec().len() + 1
                    &&& q.errors_spec().drop_last() == old(self).errors_spec()
                    &&& same_error(q.errors_spec().last(), *error)
                    &&& recovery_result(q, *final(self), s, strategy)
                },
    {
        let copy = error.duplicate();
        self.record_error(Box::new(copy));
        let ghost q = *self;
        assert(q.errors_spec().drop_last() == old(self).errors_spec());
        let r = match strategy {
            RecoveryStrategy::SkipToNextStatement => self.skip_to_next_statement(),
            RecoveryStrategy::SkipToDelimiter(delim) => self.skip_to_delimiter(delim),
            RecoveryStrategy::SkipToTokens(tokens) => self.skip_to_tokens(tokens),
            RecoveryStrategy::InsertToken(token) => self.insert_missing_token(token),
            RecoveryStrategy::TryAlternative => self.try_alternative_parse(),
        };
        assert(r matches Ok(s) && recovery_result(q, *self, s, strategy));
        r
    }

    /// Skips to where the next statement starts (see `next_statement`) and
    /// returns an error node spanning what was skipped.
    pub fn skip_to_next_statement(&mut self) -> (r: ParserResult<Syntax>)
        requires
            old(self).wf(),
        ensures
            final(self).wf(),
            r matches Ok(s) && skipped_to(*old(self), *final(self), s, next_statement(old(self).text(), old(self).offset() as int)),
    {
        proof { self.lemma_wf(); }
        let ghost t = self.text();
        let start = self.position();
        while !self.input().is_at_end()
            invariant
                self.wf(),
                self.moved(*old(self), self.offset()),
                t == self.text(),
                start == old(self).pos(),
                old(self).offset() <= self.offset() <= t.len(),
                next_statement(t, old(self).offset() as int) == next_statement(t, self.offset() as int),
            ensures
                self.wf(),
                self.moved(*old(self), self.offset()),
                self.offset() == next_statement(t, old(self).offset() as int),
            decreases t.len() - self.offset(),
        {
            if self.peek_keyword("def") || self.peek_keyword("theorem") || self.peek_keyword("instance")
                || self.peek_keyword("inductive") || self.peek_keyword("structure")
                || self.peek_keyword("class") || self.peek_keyword("axiom")
                || self.peek_keyword("constant") || self.peek_keyword("variable")
                || self.peek_keyword("namespace") || self.peek_keyword("end")
                || self.peek_keyword("#") {
                break;
            }
            self.advance();
        }
        let range = self.input().range_from(start);
        Ok(self.create_node(SyntaxKind::Error, range, Vec::new()))
    }

    /// Skips to the bracket that closes the current group (see
    /// `delimiter_end`); for anything but `)`, `]` and `}` skips to the next
    /// statement. Returns an error node spanning what was skipped.
    pub fn skip_to_delimiter(&mut self, target: char) -> (r: ParserResult<Syntax>)
        requires
            old(self).wf(),
        ensures
            final(self).wf(),
            r matches Ok(s) && skipped_to(
                *old(self),
                *final(self),
                s,
                match bracket_pair(target) {
                    Some((open, close)) => delimiter_end(old(self).text(), old(self).offset() as int, 1, open, close),
                    None => next_statement(old(self).text(), old(self).offset() as int),
                },
            ),
    {
        proof { self.lemma_wf(); }
        let ghost t = self.text();
        let start = self.position();
        let mut depth: usize = 1;
        let (open, close) = if target == ')' {
            ('(', ')')
        } else if target == ']' {
            ('[', ']')
        } else if target == '}' {
            ('{', '}')
        } else {
            return self.skip_to_next_statement();
        };
        proof { lemma_delimiter_end(t, self.offset() as int, 1, open, close); }
        while !self.input().is_at_end() && depth > 0
            invariant_except_break
                1 <= depth,
                delimiter_end(t, old(self).offset() as int, 1, open, close) == delimiter_end(
                    t,
                    self.offset() as int,
                    depth as nat,
                    open,
                    close,
                ),
            invariant
                self.wf(),
                self.moved(*old(self), self.offset()),
                t == self.text(),
                start == old(self).pos(),
                bracket_pair(target) == Some((open, close)),
                old(self).offset() <= self.offset() <= t.len(),
                depth <= self.offset() + 1,
            ensures
                self.wf(),
                self.moved(*old(self), self.offset()),
                self.offset() == delimiter_end(t, old(self).offset() as int, 1, open, close),
            decreases t.len() - self.offset(),
        {
            proof { self.lemma_wf(); }
            match self.peek() {
                Some(ch) => {
                    if ch == open {
                        depth += 1;
                        self.advance();
                    } else if ch == close {
                        depth -= 1;
                        if depth == 0 {
                            break;
                        }
                        self.advance();
                    } else {
                        self.advance();
                    }
                },
                None => {
                    self.advance();
                },
            }
        }
        let range = self.input().range_from(start);
        Ok(self.create_node(SyntaxKind::Error, range, Vec::new()))
    }

    /// Skips to where one of `tokens` stands (see `next_token`) and returns an
    /// error node spanning what was skipped.
    pub fn skip_to_tokens(&mut self, tokens: &[&str]) -> (r: ParserResult<Syntax>)
        requires
            old(self).wf(),
        ensures
            final(self).wf(),
            r matches Ok(s) && skipped_to(*old(self), *final(self), s, next_token(old(self).text(), old(self).offset() as int, token_views(tokens@))),
    {
        proof { self.lemma_wf(); }
        let ghost t = self.text();
        let ghost toks = token_views(tokens@);
        let start = self.position();
        while !self.input().is_at_end()
            invariant
                self.wf(),
                self.moved(*old(self), self.offset()),
                t == self.text(),
                toks == token_views(tokens@),
                start == old(self).pos(),
                old(self).offset() <= self.offset() <= t.len(),
                next_token(t, old(self).offset() as int, toks) == next_token(t, self.offset() as int, toks),
            ensures
                self.wf(),
                self.moved(*old(self), self.offset()),
                self.offset() == next_token(t, old(self).offset() as int, toks),
            decreases t.len() - self.offset(),
        {
            let mut k: usize = 0;
            let ghost o = self.offset();
            while k < tokens.len()
                invariant
                    self.offset() == o,
                    self.wf(),
                    self.moved(*old(self), self.offset()),
                    t == self.text(),
                    toks == token_views(tokens@),
                    start == old(self).pos(),
                    old(self).offset() <= self.offset() < t.len(),
                    next_token(t, old(self).offset() as int, toks) == next_token(t, self.offset() as int, toks),
                    k <= tokens@.len(),
                    forall|m: int| 0 <= m < k ==> !keyword_at(t, self.offset() as int, #[trigger] toks[m]),
                decreases tokens@.len() - k,
            {
                if self.peek_keyword(tokens[k]) {
                    let range = self.input().range_from(start);
                    proof {
                        assert(keyword_at(t, self.offset() as int, toks[k as int]));
                        assert(token_at(t, self.offset() as int, toks));
                    }
                    return Ok(self.create_node(SyntaxKind::Error, range, Vec::new()));
                }
                k += 1;
            }
            proof {
                assert(!token_at(t, self.offset() as int, toks));
            }
            self.advance();
        }
        let range = self.input().range_from(start);
        Ok(self.create_node(SyntaxKind::Error, range, Vec::new()))
    }

    /// Inserts the missing `token` as an empty-width atom at the cursor.
    pub fn insert_missing_token(&mut self, token: &str) -> (r: ParserResult<Syntax>)
        requires
            old(self).wf(),
        ensures
            final(self).wf(),
            final(self).same_context(*old(self)),
            final(self).trivia().len() == 0,
            final(self).offset() == old(self).offset(),
            r matches Ok(s) && is_atom(s, range_at(old(self).text(), old(self).offset(), old(self).offset()), token@, old(self).trivia()),
    {
        let pos = self.position();
        let range = SourceRange { start: pos, end: pos };
        Ok(self.create_atom(range, token.to_owned()))
    }

    /// Tries another parse; this skips to the next statement.
    pub fn try_alternative_parse(&mut self) -> (r: ParserResult<Syntax>)
        requires
            old(self).wf(),
        ensures
            final(self).wf(),
            r matches Ok(s) && skipped_to(*old(self), *final(self), s, next_statement(old(self).text(), old(self).offset() as int)),
    {
        self.skip_to_next_statement()
    }

    /// Should the parser still try to recover: is the error limit not yet
    /// reached?
    pub fn should_attempt_recovery(&self) -> (b: bool)
        ensures
            b == (self.errors_spec().len() < self.max_errors()),
    {
        !self.too_many_errors()
    }

    /// Skips to the next synchronization point (see `sync_point`).
    pub fn synchronize(&mut self)
        requires
            old(self).wf(),
        ensures
            final(self).wf(),
            final(self).moved(*old(self), sync_point(old(self).text(), old(self).offset() as int) as nat),
    {
        proof { self.lemma_wf(); }
        let ghost t = self.text();
        proof { lemma_sync_point(t, self.offset() as int); }
        while !self.input().is_at_end()
            invariant
                self.wf(),
                self.moved(*old(self), self.offset()),
                t == self.text(),
                old(self).offset() <= self.offset() <= t.len(),
                sync_point(t, old(self).offset() as int) == sync_point(t, self.offset() as int),
            ensures
                self.wf(),
                self.moved(*old(self), self.offset()),
                self.offset() == sync_point(t, old(self).offset() as int),
            decreases t.len() - self.offset(),
        {
            if self.peek_keyword("def") || self.peek_keyword("theorem") || self.peek_keyword("instance")
                || self.peek_keyword("end") || self.peek() == Some('\n') {
                break;
            }
            self.advance();
        }
    }

    /// Runs `parser`; if it fails, records the error and recovers as
    /// `recovery` says, turning the syntax that recovery produces into a `T`.
    /// Never fails.
    pub fn parse_with_recovery<F, T>(&mut self, parser: F, recovery: RecoveryStrategy) -> (r: ParserResult<T>) where
        F: FnOnce(&mut Parser) -> ParserResult<T>,
        T: From<Syntax>,
        requires
            old(self).wf(),
            forall|q: &mut Parser| q.wf() ==> parser.requires((q,)),
            forall|q: &mut Parser, x: ParserResult<T>| parser.ensures((q,), x) ==> final(q).wf(),
        ensures
            final(self).wf(),
            r is Ok,
            exists|q: &mut Parser, x: ParserResult<T>|
                #![trigger parser.ensures((q,), x)]
                {
                    &&& *q == *old(self)
                    &&& parser.ensures((q,), x)
                    &&& x is Ok ==> r == x && *final(self) == *final(q)
                    &&& x matches Err(e) ==> exists|mid: Parser, s: Syntax|
                        {
                            &&& mid.wf()
                            &&& mid.text() == final(q).text()
                            &&& mid.offset() == final(q).offset()
                            &&& mid.saved() == final(q).saved()
                            &&& mid.trivia() == final(q).trivia()
                            &&& mid.warnings_spec() == final(q).warnings_spec()
                            &&& mid.mode_spec() == final(q).mode_spec()
                            &&& mid.category() == final(q).category()
                            &&& mid.max_errors() == final(q).max_errors()
                            &&& mid.errors_spec().drop_last() == final(q).errors_spec()
                            &&& mid.errors_spec().len() == final(q).errors_spec().len() + 1
                            &&& same_error(mid.errors_spec().last(), *e)
                            &&& recovery_result(mid, *final(self), s, recovery)
                            &&& r matches Ok(v) && call_ensures(T::from, (s,), v)
                        }
                },
    {
        assert(parser.requires((self,)));
        match parser(self) {
            Ok(result) => Ok(result),
            Err(error) => {
                let recovered = self.recover_from_error(error, recovery);
                match recovered {
                    Ok(s) => Ok(T::from(s)),
                    Err(e) => Err(e),
                }
            },
        }
    }

    /// After an error inside a delimited list: skips to the next separator
    /// (consuming it and the whitespace after it) or to the closing
    /// delimiter (not consumed), or to the end.
    fn skip_to_separator(&mut self, close: char, separator: Option<char>)
        requires
            old(self).wf(),
        ensures
            final(self).wf(),
            final(self).same_context(*old(self)),
            old(self).offset() <= final(self).offset() <= old(self).text().len(),
            final(self).offset() == old(self).offset() ==> old(self).offset() == old(self).text().len()
                || old(self).next_char() == Some(close),
            final(self).offset() == skip_sep_end(old(self).text(), old(self).offset() as int, close, separator),
    {
        proof { self.lemma_wf(); }
        let ghost t = self.text();
        while !self.input().is_at_end()
            invariant_except_break
                skip_sep_end(t, self.offset() as int, close, separator) == skip_sep_end(t, old(self).offset() as int, close, separator),
            invariant
                self.wf(),
                self.same_context(*old(self)),
                t == self.text(),
                old(self).offset() <= self.offset() <= t.len(),
                self.offset() == old(self).offset() ==> self.trivia() == old(self).trivia(),
            ensures
                self.wf(),
                self.same_context(*old(self)),
                old(self).offset() <= self.offset() <= t.len(),
                self.offset() == old(self).offset() ==> old(self).offset() == t.len()
                    || old(self).next_char() == Some(close),
                self.offset() == skip_sep_end(t, old(self).offset() as int, close, separator),
            decreases t.len() - self.offset(),
        {
            proof { self.lemma_wf(); }
            match self.peek() {
                Some(ch) => {
                    if ch == close {
                        break;
                    } else if separator.is_some() && ch == separator.unwrap() {
                        let ghost o = self.offset();
                        proof {
                            assert(skip_sep_end(t, o as int, close, separator) == trivia_end(t, o + 1int));
                        }
                        self.advance();
                        self.skip_whitespace();
                        proof {
                            crate::scan::lemma_trivia_end(t, (o + 1) as int);
                        }
                        break;
                    } else {
                        proof {
                            let k = self.offset() as int;
                            assert(t[k] == ch);
                            assert(skip_sep_end(t, k, close, separator) == skip_sep_end(t, k + 1, close, separator));
                        }
                        self.advance();
                    }
                },
                None => {
                    self.advance();
                },
            }
        }
    }

    /// Parses `open`, then items with `parser` until `close`, then `close`.
    /// Items may be separated by `separator`. A failing item is recorded as
    /// an error and skipped up to the next separator or `close`; a missing
    /// separator is recorded as an error too (see `list_result`). `parser`
    /// must not move the cursor back, and must consume something when it
    /// succeeds.
    #[verifier::spinoff_prover]
    #[verifier::rlimit(50)]
    pub fn parse_delimited_with_recovery<F, T>(
        &mut self,
        open: char,
        close: char,
        separator: Option<char>,
        parser: F,
    ) -> (r: ParserResult<Vec<T>>) where F: Fn(&mut Parser) -> ParserResult<T>,
        requires
            old(self).wf(),
            forall|q: &mut Parser| q.wf() ==> parser.requires((q,)),
            forall|q: &mut Parser, x: ParserResult<T>|
                parser.ensures((q,), x) ==> {
                    &&& final(q).wf()
                    &&& final(q).text() == q.text()
                    &&& final(q).offset() >= q.offset()
                    &&& x is Ok ==> final(q).offset() > q.offset()
                },
        ensures
            final(self).wf(),
            final(self).text() == old(self).text(),
            old(self).next_char() != Some(open) ==> {
                &&& final(self).moved(*old(self), old(self).offset())
                &&& r matches Err(e) && expect_error(*e, old(self).text(), old(self).offset() as int, open)
            },
            old(self).next_char() == Some(open) ==> exists|calls: Seq<ItemCall<T>>|
                #![trigger list_result(old(self).text(), close, separator, trivia_end(old(self).text(), old(self).offset() + 1int), old(self).errors_spec(), calls, *final(self), r)]
                {
                    &&& list_result(
                        old(self).text(),
                        close,
                        separator,
                        trivia_end(old(self).text(), old(self).offset() + 1int),
                        old(self).errors_spec(),
                        calls,
                        *final(self),
                        r,
                    )
                    &&& forall|jj: int|
                        #![trigger calls[jj]]
                        0 <= jj < calls.len() ==> exists|q: &mut Parser|
                            #![trigger parser.ensures((q,), calls[jj].result)]
                            {
                                &&& q.text() == old(self).text()
                                &&& q.offset() == calls[jj].start
                                &&& q.errors_spec() == calls[jj].before
                                &&& final(q).offset() == calls[jj].end
                                &&& final(q).errors_spec() == calls[jj].after
                                &&& parser.ensures((q,), calls[jj].result)
                            }
                },
    {
        proof { self.lemma_wf(); }
        let ghost t = self.text();
        match self.expect_char(open) {
            Ok(()) => {},
            Err(e) => {
                return Err(e);
            },
        }
        self.skip_whitespace();
        proof { lemma_trivia_end(t, (old(self).offset() + 1) as int); }
        let ghost k0 = self.offset() as int;
        let ghost e0 = self.errors_spec();
        let mut items: Vec<T> = Vec::new();
        let ghost mut calls: Seq<ItemCall<T>> = Seq::empty();
        loop
            invariant
                self.wf(),
                t == self.text(),
                old(self).offset() + 1 <= self.offset() <= t.len(),
                old(self).next_char() == Some(open),
                k0 == trivia_end(t, old(self).offset() + 1int),
                e0 == old(self).errors_spec(),
                forall|q: &mut Parser| q.wf() ==> parser.requires((q,)),
                forall|q: &mut Parser, x: ParserResult<T>|
                    parser.ensures((q,), x) ==> {
                        &&& final(q).wf()
                        &&& final(q).text() == q.text()
                        &&& final(q).offset() >= q.offset()
                        &&& x is Ok ==> final(q).offset() > q.offset()
                    },
                list_calls(t, close, separator, k0, e0, calls),
                forall|jj: int|
                    #![trigger calls[jj]]
                    0 <= jj < calls.len() ==> exists|q: &mut Parser|
                        #![trigger parser.ensures((q,), calls[jj].result)]
                        {
                            &&& q.text() == t
                            &&& q.offset() == calls[jj].start
                            &&& q.errors_spec() == calls[jj].before
                            &&& final(q).offset() == calls[jj].end
                            &&& final(q).errors_spec() == calls[jj].after
                            &&& parser.ensures((q,), calls[jj].result)
                        },
                self.offset() == list_pos(t, close, separator, k0, calls, calls.len() as int),
                self.errors_spec() == list_errors(e0, calls, calls.len() as int),
                items@ == list_items(calls),
            ensures
                self.wf(),
                t == self.text(),
                old(self).offset() + 1 <= self.offset() <= t.len(),
                old(self).next_char() == Some(open),
                k0 == trivia_end(t, old(self).offset() + 1int),
                e0 == old(self).errors_spec(),
                forall|q: &mut Parser| q.wf() ==> parser.requires((q,)),
                forall|q: &mut Parser, x: ParserResult<T>|
                    parser.ensures((q,), x) ==> {
                        &&& final(q).wf()
                        &&& final(q).text() == q.text()
                        &&& final(q).offset() >= q.offset()
                        &&& x is Ok ==> final(q).offset() > q.offset()
                    },
                list_calls(t, close, separator, k0, e0, calls),
                forall|jj: int|
                    #![trigger calls[jj]]
                    0 <= jj < calls.len() ==> exists|q: &mut Parser|
                        #![trigger parser.ensures((q,), calls[jj].result)]
                        {
                            &&& q.text() == t
                            &&& q.offset() == calls[jj].start
                            &&& q.errors_spec() == calls[jj].before
                            &&& final(q).offset() == calls[jj].end
                            &&& final(q).errors_spec() == calls[jj].after
                            &&& parser.ensures((q,), calls[jj].result)
                        },
                self.offset() == list_pos(t, close, separator, k0, calls, calls.len() as int),
                self.errors_spec() == list_errors(e0, calls, calls.len() as int),
                items@ == list_items(calls),
                !list_open(t, close, self.offset() as int),
            decreases t.len() - self.offset(),
        {
            proof { self.lemma_wf(); }
            if self.peek() == Some(close) || self.input().is_at_end() {
                break;
            }
            let ghost o = self.offset() as int;
            let ghost eb = self.errors_spec();
            assert(parser.requires((self,)));
            let res = parser(self);
            let ghost rg = res;
            let ghost end = self.offset() as int;
            let ghost e1 = self.errors_spec();
            let ghost mut bad: Seq<ParseError> = Seq::empty();
            match res {
                Ok(item) => {
                    items.push(item);
                },
                Err(error) => {
                    proof { bad = seq![*error]; }
                    self.record_error(error);
                    self.skip_to_separator(close, separator);
                },
            }
            proof { self.lemma_wf(); }
            let ghost o2 = self.offset();
            self.skip_whitespace();
            proof { lemma_trivia_end(t, o2 as int); }
            let ghost stop = self.offset() as int;
            let ghost e2 = self.errors_spec();
            let ghost c0 = ItemCall { start: o, end, result: rg, before: eb, after: e1, added: Seq::<ParseError>::empty() };
            proof {
                assert(e2 == e1 + bad);
                assert(stop == item_stop(t, close, separator, c0));
            }
            let ghost mut miss: Seq<ParseError> = Seq::empty();
            match separator {
                Some(sep) => {
                    if self.peek() == Some(sep) {
                        let ghost o3 = self.offset();
                        self.advance();
                        self.skip_whitespace();
                        proof { lemma_trivia_end(t, (o3 + 1) as int); }
                    } else if self.peek() != Some(close) {
                        let mut what = String::new();
                        string_push(&mut what, '\'');
                        string_push(&mut what, sep);
                        string_push(&mut what, '\'');
                        proof { assert(what@ =~= seq!['\'', sep, '\'']); }
                        let error = ParseError::new(ParseErrorKind::Expected(what), self.position());
                        proof { miss = seq![error]; }
                        self.record_error(Box::new(error));
                    }
                },
                None => {},
            }
            proof {
                self.lemma_wf();
                let added = bad + miss;
                let call = ItemCall { start: o, end, result: rg, before: eb, after: e1, added };
                assert(item_stop(t, close, separator, call) == stop);
                assert(sep_missing(t, close, separator, call) <==> miss.len() == 1);
                assert(self.offset() == item_next(t, close, separator, call));
                assert(self.errors_spec() =~= e1 + added);
                assert(item_errors(t, close, separator, call));
                lemma_list_step(t, close, separator, k0, e0, calls, call);
                let calls1 = calls.push(call);
                assert(items@ =~= list_items(calls1));
                assert forall|jj: int| #![trigger calls1[jj]] 0 <= jj < calls1.len() implies exists|q: &mut Parser|
                    #![trigger parser.ensures((q,), calls1[jj].result)]
                    {
                        &&& q.text() == t
                        &&& q.offset() == calls1[jj].start
                        &&& q.errors_spec() == calls1[jj].before
                        &&& final(q).offset() == calls1[jj].end
                        &&& final(q).errors_spec() == calls1[jj].after
                        &&& parser.ensures((q,), calls1[jj].result)
                    } by {
                    if jj < calls.len() {
                        assert(calls1[jj] == calls[jj]);
                    }
                }
                calls = calls1;
            }
            proof { self.lemma_wf(); }
            if self.peek() == Some(close) || self.input().is_at_end() {
                break;
            }
        }
        proof { self.lemma_wf(); }
        match self.expect_char(close) {
            Ok(()) => {},
            Err(err) => {
                proof {
                    assert(list_result(t, close, separator, k0, e0, calls, *self, Err::<Vec<T>, Box<ParseError>>(err)));
                }
                return Err(err);
            },
        }
        let r = Ok(items);
        proof {
            assert(list_result(t, close, separator, k0, e0, calls, *self, r));
        }
        r
    }
}

/// Where `synchronize` stops from `i` is the first place at or after `i`
/// where `def`, `theorem`, `instance` or `end` begins or a newline stands,
/// or the end of the text: it passes none of them.
pub proof fn law_sync_point_first_stop(t: Seq<char>, i: int)
    requires
        0 <= i <= t.len(),
    ensures
        i <= sync_point(t, i) <= t.len(),
        forall|k: int| #![trigger keyword_at(t, k, "def"@)] i <= k < sync_point(t, i) ==> !keyword_at(t, k, "def"@) && !keyword_at(t, k, "theorem"@) && !keyword_at(t, k, "instance"@) && !keyword_at(t, k, "end"@) && t[k] != '\n',
        sync_point(t, i) < t.len() ==> keyword_at(t, sync_point(t, i), "def"@) || keyword_at(t, sync_point(t, i), "theorem"@) || keyword_at(t, sync_point(t, i), "instance"@) || keyword_at(t, sync_point(t, i), "end"@) || t[sync_point(t, i)] == '\n',
    decreases t.len() - i,
{
    if i < t.len() && !(keyword_at(t, i, "def"@) || keyword_at(t, i, "theorem"@) || keyword_at(t, i, "instance"@) || keyword_at(t, i, "end"@) || t[i] == '\n') {
        law_sync_point_first_stop(t, i + 1);
        assert(sync_point(t, i) == sync_point(t, i + 1));
        assert forall|k: int| i <= k < sync_point(t, i) implies !keyword_at(t, k, "def"@) && !keyword_at(t, k, "theorem"@) && !keyword_at(t, k, "instance"@) && !keyword_at(t, k, "end"@) && t[k] != '\n' by {
            if k > i {
                assert(i + 1 <= k < sync_point(t, i + 1));
            }
        }
    }
}

/// `synchronize` moves the cursor forward to the first `def`, `theorem`,
/// `instance`, `end` or newline from where it stood, or to the end, and
/// changes nothing else.
pub proof fn law_synchronize(p: Parser, q: Parser)
    requires
        p.wf(),
        q.moved(p, sync_point(p.text(), p.offset() as int) as nat),
    ensures
        ({
            let t = p.text();
            &&& p.offset() <= q.offset() <= t.len()
            &&& q.text() == t
            &&& forall|k: int| #![trigger keyword_at(t, k, "def"@)] p.offset() <= k < q.offset() ==> !keyword_at(t, k, "def"@) && !keyword_at(t, k, "theorem"@) && !keyword_at(t, k, "instance"@) && !keyword_at(t, k, "end"@) && t[k] != '\n'
            &&& q.offset() < t.len() ==> keyword_at(t, q.offset() as int, "def"@) || keyword_at(t, q.offset() as int, "theorem"@) || keyword_at(t, q.offset() as int, "instance"@) || keyword_at(t, q.offset() as int, "end"@) || t[q.offset() as int] == '\n'
        }),
{
    p.lemma_wf();
    law_sync_point_first_stop(p.text(), p.offset() as int);
}

/// Skipping to the next statement stops at the first place at or after
/// `i` where a statement keyword begins (`def`, `theorem`, `instance`,
/// `inductive`, `structure`, `class`, `axiom`, `constant`, `variable`,
/// `namespace`, `end` or `#`), or at the end of the text.
pub proof fn law_next_statement_first_stop(t: Seq<char>, i: int)
    requires
        0 <= i <= t.len(),
    ensures
        i <= next_statement(t, i) <= t.len(),
        forall|k: int| i <= k < next_statement(t, i) ==> !keyword_at(t, k, "def"@) && !keyword_at(t, k, "theorem"@) && !keyword_at(t, k, "instance"@) && !keyword_at(t, k, "inductive"@) && !keyword_at(t, k, "structure"@) && !keyword_at(t, k, "class"@) && !keyword_at(t, k, "axiom"@) && !keyword_at(t, k, "constant"@) && !keyword_at(t, k, "variable"@) && !keyword_at(t, k, "namespace"@) && !keyword_at(t, k, "end"@) && !keyword_at(t, k, "#"@),
        next_statement(t, i) < t.len() ==> keyword_at(t, next_statement(t, i), "def"@) || keyword_at(t, next_statement(t, i), "theorem"@) || keyword_at(t, next_statement(t, i), "instance"@) || keyword_at(t, next_statement(t, i), "inductive"@) || keyword_at(t, next_statement(t, i), "structure"@) || keyword_at(t, next_statement(t, i), "class"@) || keyword_at(t, next_statement(t, i), "axiom"@) || keyword_at(t, next_statement(t, i), "constant"@) || keyword_at(t, next_statement(t, i), "variable"@) || keyword_at(t, next_statement(t, i), "namespace"@) || keyword_at(t, next_statement(t, i), "end"@) || keyword_at(t, next_statement(t, i), "#"@),
    decreases t.len() - i,
{
    if i < t.len() && !(keyword_at(t, i, "def"@) || keyword_at(t, i, "theorem"@) || keyword_at(t, i, "instance"@) || keyword_at(t, i, "inductive"@) || keyword_at(t, i, "structure"@) || keyword_at(t, i, "class"@) || keyword_at(t, i, "axiom"@) || keyword_at(t, i, "constant"@) || keyword_at(t, i, "variable"@) || keyword_at(t, i, "namespace"@) || keyword_at(t, i, "end"@) || keyword_at(t, i, "#"@)) {
        law_next_statement_first_stop(t, i + 1);
        assert forall|k: int| i <= k < next_statement(t, i) implies !keyword_at(t, k, "def"@) && !keyword_at(t, k, "theorem"@) && !keyword_at(t, k, "instance"@) && !keyword_at(t, k, "inductive"@) && !keyword_at(t, k, "structure"@) && !keyword_at(t, k, "class"@) && !keyword_at(t, k, "axiom"@) && !keyword_at(t, k, "constant"@) && !keyword_at(t, k, "variable"@) && !keyword_at(t, k, "namespace"@) && !keyword_at(t, k, "end"@) && !keyword_at(t, k, "#"@) by {
            if k > i {
            }
        }
    }
}

/// Skipping to one of the keywords `toks` stops at the first place at or
/// after `i` where one of them begins, or at the end of the text.
pub proof fn law_next_token_first_stop(t: Seq<char>, i: int, toks: Seq<Seq<char>>)
    requires
        0 <= i <= t.len(),
    ensures
        i <= next_token(t, i, toks) <= t.len(),
        forall|k: int, m: int| i <= k < next_token(t, i, toks) && 0 <= m < toks.len() ==> !(#[trigger] keyword_at(t, k, toks[m])),
        next_token(t, i, toks) < t.len() ==> exists|m: int| 0 <= m < toks.len() && keyword_at(t, next_token(t, i, toks), #[trigger] toks[m]),
    decreases t.len() - i,
{
    if i < t.len() && !token_at(t, i, toks) {
        law_next_token_first_stop(t, i + 1, toks);
        assert forall|k: int, m: int| i <= k < next_token(t, i, toks) && 0 <= m < toks.len() implies !(#[trigger] keyword_at(t, k, toks[m])) by {
            if k == i {
                assert(!keyword_at(t, i, toks[m]));
            }
        }
    }
}

/// How many more `open` than `close` characters stand in `t` from `i` up to
/// (not including) `k`.
pub open spec fn bracket_balance(t: Seq<char>, i: int, k: int, open: char, close: char) -> int
    decreases k - i,
{
    if i >= k || i < 0 || i >= t.len() {
        0
    } else if t[i] == open {
        1 + bracket_balance(t, i + 1, k, open, close)
    } else if t[i] == close {
        bracket_balance(t, i + 1, k, open, close) - 1
    } else {
        bracket_balance(t, i + 1, k, open, close)
    }
}

proof fn lemma_delimiter_end_balance(t: Seq<char>, i: int, depth: nat, open: char, close: char)
    requires
        0 <= i <= t.len(),
        depth >= 1,
        open != close,
    ensures
        i <= delimiter_end(t, i, depth, open, close) <= t.len(),
        forall|k: int| i <= k <= delimiter_end(t, i, depth, open, close) ==> depth + #[trigger] bracket_balance(t, i, k, open, close) >= 1,
        delimiter_end(t, i, depth, open, close) < t.len() ==> {
            &&& t[delimiter_end(t, i, depth, open, close)] == close
            &&& depth + bracket_balance(t, i, delimiter_end(t, i, depth, open, close), open, close) == 1
        },
    decreases t.len() - i,
{
    let e = delimiter_end(t, i, depth, open, close);
    if i < t.len() {
        if t[i] == open {
            lemma_delimiter_end_balance(t, i + 1, depth + 1, open, close);
            assert forall|k: int| i <= k <= e implies depth + #[trigger] bracket_balance(t, i, k, open, close) >= 1 by {
                if k > i {
                    assert(bracket_balance(t, i, k, open, close) == 1 + bracket_balance(t, i + 1, k, open, close));
                }
            }
            if e < t.len() {
                assert(bracket_balance(t, i, e, open, close) == 1 + bracket_balance(t, i + 1, e, open, close));
            }
        } else if t[i] == close {
            if depth > 1 {
                lemma_delimiter_end_balance(t, i + 1, (depth - 1) as nat, open, close);
                assert forall|k: int| i <= k <= e implies depth + #[trigger] bracket_balance(t, i, k, open, close) >= 1 by {
                    if k > i {
                        assert(bracket_balance(t, i, k, open, close) == bracket_balance(t, i + 1, k, open, close) - 1);
                    }
                }
                if e < t.len() {
                    assert(bracket_balance(t, i, e, open, close) == bracket_balance(t, i + 1, e, open, close) - 1);
                }
            }
        } else {
            lemma_delimiter_end_balance(t, i + 1, depth, open, close);
            assert forall|k: int| i <= k <= e implies depth + #[trigger] bracket_balance(t, i, k, open, close) >= 1 by {
                if k > i {
                    assert(bracket_balance(t, i, k, open, close) == bracket_balance(t, i + 1, k, open, close));
                }
            }
            if e < t.len() {
                assert(bracket_balance(t, i, e, open, close) == bracket_balance(t, i + 1, e, open, close));
            }
        }
    }
}

/// Skipping to a closing bracket from inside its group stops at the first
/// `close` that closes the group: up to it, the text never holds more
/// `close` than `open` characters, and there, one more `close` than
/// `open` stands; without one it runs to the end of the text.
pub proof fn law_delimiter_end_closes_group(t: Seq<char>, i: int, open: char, close: char)
    requires
        0 <= i <= t.len(),
        open != close,
    ensures
        i <= delimiter_end(t, i, 1, open, close) <= t.len(),
        forall|k: int| i <= k <= delimiter_end(t, i, 1, open, close) ==> #[trigger] bracket_balance(t, i, k, open, close) >= 0,
        delimiter_end(t, i, 1, open, close) < t.len() ==> t[delimiter_end(t, i, 1, open, close)] == close
            && bracket_balance(t, i, delimiter_end(t, i, 1, open, close), open, close) == 0,
{
    lemma_delimiter_end_balance(t, i, 1, open, close);
}

} // verus!
