//! A cursor over the characters of the source text that tracks the source
//! position and keeps a stack of saved positions for backtracking.
use vstd::prelude::*;
use crate::syntax::{
    char_utf8_len, line_col, lemma_line_col_bounds, lemma_utf8_offset_encoding,
    lemma_utf8_offset_monotone, lemma_utf8_offset_step, pos_at, utf8_offset, SourcePos, SourceRange,
};

verus! {

/// Appends a character to a string (`String::push`).
#[verifier::external_body]
pub fn string_push(s: &mut String, c: char)
    ensures
        final(s)@ == old(s)@.push(c),
{
    s.push(c);
}

/// The characters of a string slice, in order.
pub fn str_chars(s: &str) -> (v: Vec<char>)
    ensures
        v@ == s@,
{
    let mut v: Vec<char> = Vec::new();
    for c in it: s.chars()
        invariant
            v@ == it.seq().take(it.index() as int),
    {
        v.push(c);
    }
    v
}

/// A string made of the given characters.
pub fn string_from_chars(cs: &Vec<char>) -> (s: String)
    ensures
        s@ == cs@,
{
    let mut s = String::new();
    let mut i: usize = 0;
    while i < cs.len()
        invariant
            i <= cs.len(),
            s@ == cs@.take(i as int),
        decreases cs.len() - i,
    {
        string_push(&mut s, cs[i]);
        i += 1;
        assert(s@ == cs@.take(i as int));
    }
    assert(cs@.take(cs.len() as int) == cs@);
    s
}

/// The number of bytes in the UTF-8 encoding of `c`.
pub fn char_width(c: char) -> (n: usize)
    ensures
        n == char_utf8_len(c),
{
    let u = c as u32;
    if u < 0x80 {
        1
    } else if u < 0x800 {
        2
    } else if u < 0x10000 {
        3
    } else {
        4
    }
}

/// The source cursor. `offset` indexes the characters; `bytes` is the
/// matching offset in the UTF-8 text. Each saved position keeps both.
pub struct Input {
    chars: Vec<char>,
    offset: usize,
    bytes: usize,
    line: usize,
    column: usize,
    saved: Vec<(usize, SourcePos)>,
}

impl Input {
    /// The cursor lies within its text, line and column agree with the
    /// offset, and so do the saved positions.
    pub closed spec fn wf(self) -> bool {
        &&& self.chars@.len() < usize::MAX
        &&& utf8_offset(self.chars@, self.chars@.len()) <= usize::MAX
        &&& self.offset <= self.chars@.len()
        &&& self.bytes == utf8_offset(self.chars@, self.offset as nat)
        &&& line_col(self.chars@, self.offset as nat).0 == self.line
        &&& line_col(self.chars@, self.offset as nat).1 == self.column
        &&& forall|k: int|
            0 <= k < self.saved@.len() ==> {
                &&& (#[trigger] self.saved@[k]).0 <= self.chars@.len()
                &&& self.saved@[k].1 == pos_at(self.chars@, self.saved@[k].0 as nat)
            }
    }

    /// The whole source text.
    pub closed spec fn text(self) -> Seq<char> {
        self.chars@
    }

    /// The index of the next character to read.
    pub closed spec fn offset(self) -> nat {
        self.offset as nat
    }

    /// The stack of saved character indices, most recent last.
    pub closed spec fn saved(self) -> Seq<nat> {
        self.saved@.map_values(|m: (usize, SourcePos)| m.0 as nat)
    }

    /// The next character, if any.
    pub open spec fn peek_spec(self) -> Option<char> {
        if self.offset() < self.text().len() {
            Some(self.text()[self.offset() as int])
        } else {
            None
        }
    }

    /// The character `n` places ahead, if any.
    pub open spec fn peek_nth_spec(self, n: nat) -> Option<char> {
        if self.offset() + n < self.text().len() {
            Some(self.text()[(self.offset() + n) as int])
        } else {
            None
        }
    }

    /// Every well-formed cursor lies within its text, and so do its saved
    /// positions.
    pub proof fn lemma_wf(self)
        requires
            self.wf(),
        ensures
            self.offset() <= self.text().len(),
            self.text().len() < usize::MAX,
            forall|k: int| 0 <= k < self.saved().len() ==> #[trigger] self.saved()[k] <= self.text().len(),
    {
    }

    /// A cursor at the start of `source`.
    pub fn new(source: &str) -> (r: Input)
        requires
            source@.len() < usize::MAX,
        ensures
            r.wf(),
            r.text() == source@,
            r.offset() == 0,
            r.saved().len() == 0,
    {
        // The text's UTF-8 length fits in a `usize`, and so do the byte
        // offsets of its characters.
        let total_bytes = source.as_bytes().len();
        let chars = str_chars(source);
        proof {
            lemma_utf8_offset_encoding(source@, source@.len());
            lemma_utf8_offset_step(source@, 0);
            assert(source@.take(source@.len() as int) =~= source@);
            assert(utf8_offset(source@, source@.len()) == total_bytes);
        }
        let r = Input { chars, offset: 0, bytes: 0, line: 1, column: 1, saved: Vec::new() };
        assert(r.saved() =~= Seq::<nat>::empty());
        r
    }

    /// The current position.
    pub fn position(&self) -> (p: SourcePos)
        requires
            self.wf(),
        ensures
            p == pos_at(self.text(), self.offset()),
    {
        SourcePos { line: self.line, column: self.column, offset: self.bytes }
    }

    /// Is the whole text consumed?
    pub fn is_at_end(&self) -> (b: bool)
        requires
            self.wf(),
        ensures
            b == (self.offset() >= self.text().len()),
    {
        self.offset >= self.chars.len()
    }

    /// The next character, without consuming it.
    pub fn peek(&self) -> (c: Option<char>)
        requires
            self.wf(),
        ensures
            c == self.peek_spec(),
    {
        if self.offset < self.chars.len() {
            Some(self.chars[self.offset])
        } else {
            None
        }
    }

    /// The character `n` places ahead, without consuming anything.
    pub fn peek_nth(&self, n: usize) -> (c: Option<char>)
        requires
            self.wf(),
        ensures
            c == self.peek_nth_spec(n as nat),
    {
        if n < self.chars.len() - self.offset {
            Some(self.chars[self.offset + n])
        } else {
            None
        }
    }

    /// Consumes and returns the next character; at the end nothing changes.
    pub fn advance(&mut self) -> (c: Option<char>)
        requires
            old(self).wf(),
        ensures
            final(self).wf(),
            c == old(self).peek_spec(),
            final(self).text() == old(self).text(),
            final(self).saved() == old(self).saved(),
            final(self).offset() == if old(self).offset() < old(self).text().len() {
                old(self).offset() + 1
            } else {
                old(self).offset()
            },
    {
        if self.offset < self.chars.len() {
            let c = self.chars[self.offset];
            proof {
                lemma_line_col_bounds(self.chars@, self.offset as nat);
                lemma_utf8_offset_monotone(self.chars@, (self.offset + 1) as nat, self.chars@.len());
                lemma_utf8_offset_step(self.chars@, self.offset as nat);
            }
            self.bytes = self.bytes + char_width(c);
            self.offset = self.offset + 1;
            if c == '\n' {
                self.line = self.line + 1;
                self.column = 1;
            } else {
                self.column = self.column + 1;
            }
            Some(c)
        } else {
            None
        }
    }

    /// Consumes characters while `pred` accepts them and returns them.
    pub fn consume_while<F>(&mut self, pred: F) -> (s: String) where F: Fn(char) -> bool
        requires
            old(self).wf(),
            forall|c: char| pred.requires((c,)),
        ensures
            final(self).wf(),
            final(self).text() == old(self).text(),
            final(self).saved() == old(self).saved(),
            old(self).offset() <= final(self).offset() <= old(self).text().len(),
            s@ == old(self).text().subrange(old(self).offset() as int, final(self).offset() as int),
            forall|k: int|
                old(self).offset() <= k < final(self).offset() ==> pred.ensures(
                    (#[trigger] old(self).text()[k],),
                    true,
                ),
            final(self).offset() < old(self).text().len() ==> pred.ensures(
                (old(self).text()[final(self).offset() as int],),
                false,
            ),
    {
        let ghost start = self.offset();
        let mut s = String::new();
        loop
            invariant
                self.wf(),
                forall|c: char| pred.requires((c,)),
                self.text() == old(self).text(),
                self.saved() == old(self).saved(),
                start == old(self).offset(),
                start <= self.offset() <= self.text().len(),
                s@ == self.text().subrange(start as int, self.offset() as int),
                forall|k: int|
                    start <= k < self.offset() ==> pred.ensures((#[trigger] self.text()[k],), true),
            ensures
                self.wf(),
                self.text() == old(self).text(),
                self.saved() == old(self).saved(),
                start <= self.offset() <= self.text().len(),
                s@ == self.text().subrange(start as int, self.offset() as int),
                forall|k: int|
                    start <= k < self.offset() ==> pred.ensures((#[trigger] self.text()[k],), true),
                self.offset() < self.text().len() ==> pred.ensures(
                    (self.text()[self.offset() as int],),
                    false,
                ),
            decreases self.text().len() - self.offset(),
        {
                match self.peek() {
                Some(c) => {
                    if pred(c) {
                        self.advance();
                        string_push(&mut s, c);
                        assert(s@ == self.text().subrange(start as int, self.offset() as int));
                    } else {
                        break;
                    }
                },
                None => {
                    break;
                },
            }
        }
        s
    }

    /// The span from `start` to the current position.
    pub fn range_from(&self, start: SourcePos) -> (r: SourceRange)
        requires
            self.wf(),
        ensures
            r == (SourceRange { start: start, end: pos_at(self.text(), self.offset()) }),
    {
        SourceRange { start, end: self.position() }
    }

    /// Pushes the current position onto the saved stack.
    pub fn save_position(&mut self)
        requires
            old(self).wf(),
        ensures
            final(self).wf(),
            final(self).text() == old(self).text(),
            final(self).offset() == old(self).offset(),
            final(self).saved() == old(self).saved().push(old(self).offset()),
    {
        let p = self.position();
        let mut saved: Vec<(usize, SourcePos)> = Vec::new();
        std::mem::swap(&mut saved, &mut self.saved);
        saved.push((self.offset, p));
        self.saved = saved;
        assert(self.saved() =~= old(self).saved().push(old(self).offset()));
    }

    /// Drops the most recently saved position, keeping the current one.
    pub fn commit_position(&mut self)
        requires
            old(self).wf(),
        ensures
            final(self).wf(),
            final(self).text() == old(self).text(),
            final(self).offset() == old(self).offset(),
            final(self).saved() == if old(self).saved().len() > 0 {
                old(self).saved().drop_last()
            } else {
                old(self).saved()
            },
    {
        if self.saved.len() > 0 {
            let mut saved: Vec<(usize, SourcePos)> = Vec::new();
            std::mem::swap(&mut saved, &mut self.saved);
            saved.pop();
            self.saved = saved;
            assert(self.saved() =~= old(self).saved().drop_last());
        }
    }

    /// Returns to the most recently saved position and drops it from the
    /// stack; with nothing saved, nothing changes.
    pub fn restore_position(&mut self)
        requires
            old(self).wf(),
        ensures
            final(self).wf(),
            final(self).text() == old(self).text(),
            old(self).saved().len() > 0 ==> {
                &&& final(self).saved() == old(self).saved().drop_last()
                &&& final(self).offset() == old(self).saved().last()
            },
            old(self).saved().len() == 0 ==> final(self).saved() == old(self).saved()
                && final(self).offset() == old(self).offset(),
    {
        if self.saved.len() > 0 {
            let mut saved: Vec<(usize, SourcePos)> = Vec::new();
            std::mem::swap(&mut saved, &mut self.saved);
            let (k, p) = saved.pop().unwrap();
            proof {
                assert(old(self).saved@[old(self).saved@.len() - 1] == (k, p));
                lemma_line_col_bounds(self.chars@, k as nat);
                lemma_utf8_offset_monotone(self.chars@, k as nat, self.chars@.len());
            }
            self.saved = saved;
            self.offset = k;
            self.bytes = p.offset;
            self.line = p.line;
            self.column = p.column;
            assert(self.saved() =~= old(self).saved().drop_last());
        }
    }
}

} // verus!
