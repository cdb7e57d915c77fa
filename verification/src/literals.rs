//! Literals: numbers, string, character and raw string literals.
use vstd::prelude::*;
use crate::error::{ParseError, ParserResult, is_custom, is_eof, is_expected};
use crate::input::string_push;
use crate::lexical::{
    is_bin_digit, is_digit, is_hash, is_hex_digit, is_oct_digit, spec_is_digit,
    spec_is_hex_digit,
};
use crate::parser::Parser;
use crate::scan::{lemma_scan, lemma_subrange_push, scan};
use crate::syntax::{pos_at, range_at, SourcePos, Syntax};

verus! {

/// Decimal digits.
pub open spec fn digits() -> spec_fn(char) -> bool {
    |c: char| spec_is_digit(c)
}

/// Hexadecimal digits.
pub open spec fn hex_digits() -> spec_fn(char) -> bool {
    |c: char| spec_is_hex_digit(c)
}

/// Binary digits.
pub open spec fn bin_digits() -> spec_fn(char) -> bool {
    |c: char| c == '0' || c == '1'
}

/// Octal digits.
pub open spec fn oct_digits() -> spec_fn(char) -> bool {
    |c: char| '0' <= c && c <= '7'
}

/// The `#` character.
pub open spec fn hashes() -> spec_fn(char) -> bool {
    |c: char| c == '#'
}

/// Where a decimal literal that starts with a digit at `j` ends: digits, an
/// optional fraction `.` followed by digits, and an optional exponent `e`
/// or `E` with an optional sign and (possibly no) digits.
pub open spec fn decimal_end(text: Seq<char>, j: int) -> int {
    let a = scan(text, j, digits());
    let b = if a + 1 < text.len() && text[a] == '.' && spec_is_digit(text[a + 1]) {
        scan(text, a + 1, digits())
    } else {
        a
    };
    if 0 <= b < text.len() && (text[b] == 'e' || text[b] == 'E') {
        let s = if b + 1 < text.len() && (text[b + 1] == '+' || text[b + 1] == '-') {
            b + 2
        } else {
            b + 1
        };
        scan(text, s, digits())
    } else {
        b
    }
}

/// The radix prefix of a number at `i`: `0x`/`0X`, `0b`/`0B` or `0o`/`0O`,
/// given as the letter of its normal form and the digits it admits.
pub open spec fn radix_at(text: Seq<char>, i: int) -> Option<(char, spec_fn(char) -> bool)> {
    if 0 <= i && i + 1 < text.len() && text[i] == '0' {
        let c = text[i + 1];
        if c == 'x' || c == 'X' {
            Some(('x', hex_digits()))
        } else if c == 'b' || c == 'B' {
            Some(('b', bin_digits()))
        } else if c == 'o' || c == 'O' {
            Some(('o', oct_digits()))
        } else {
            None
        }
    } else {
        None
    }
}

/// `q` and `r` are `p` after reading a token that ends at `e` and reads as
/// `value`: an atom spanning from `p`'s cursor to `e` and carrying the
/// trivia `p` had collected.
pub open spec fn token_result(p: Parser, q: Parser, r: ParserResult<Syntax>, e: int, value: Seq<char>) -> bool {
    &&& q.same_context(p)
    &&& q.trivia().len() == 0
    &&& q.offset() == e
    &&& r matches Ok(s)
    &&& s matches Syntax::Atom(a)
    &&& a.range == range_at(p.text(), p.offset(), e as nat)
    &&& a.value@ == value
    &&& a.leading_trivia@ == p.trivia()
    &&& a.trailing_trivia@.len() == 0
}

/// `q` is `p` with the cursor at `e` and nothing else changed, and `r` is
/// an error.
pub open spec fn failed_at(p: Parser, q: Parser, r: ParserResult<Syntax>, e: int) -> bool {
    &&& q.moved(p, e as nat)
    &&& r is Err
}

/// What `number` does. A number must start with a digit at the cursor.
/// `0x`, `0b` and `0o` (in either case) start hexadecimal, binary and
/// octal literals, whose text is the prefix in lower case followed by at
/// least one digit; everything else is a decimal literal (see
/// `decimal_end`), taken as written. Whitespace is not skipped.
pub open spec fn number_result(p: Parser, q: Parser, r: ParserResult<Syntax>) -> bool {
    let t = p.text();
    let i = p.offset() as int;
    if !(i < t.len() && spec_is_digit(t[i])) {
        &&& failed_at(p, q, r, i)
        &&& r matches Err(e) && is_expected(*e, "number"@, pos_at(t, i as nat))
    } else {
        match number_lex(t, i) {
            Lexed::Body(value, e) => token_result(p, q, r, e, value),
            Lexed::Invalid(e) => {
                &&& failed_at(p, q, r, e)
                &&& r matches Err(err) && is_custom(*err, missing_digits(t, i), pos_at(t, e as nat))
            },
        }
    }
}

/// The text of the number literal that starts with a digit at `i`, and
/// where it ends; or, for a radix prefix without digits, where the digits
/// were expected.
pub open spec fn number_lex(t: Seq<char>, i: int) -> Lexed {
    match radix_at(t, i) {
        Some((letter, d)) => {
            let e = scan(t, i + 2, d);
            if e == i + 2 {
                Lexed::Invalid(e)
            } else {
                Lexed::Body(seq!['0', letter] + t.subrange(i + 2, e), e)
            }
        },
        None => {
            let e = decimal_end(t, i);
            Lexed::Body(t.subrange(i, e), e)
        },
    }
}

/// The message for a radix prefix at `i` that no digit follows.
pub open spec fn missing_digits(t: Seq<char>, i: int) -> Seq<char> {
    match radix_at(t, i) {
        Some((letter, d)) => if letter == 'x' {
            "hexadecimal literal must have at least one digit"@
        } else if letter == 'b' {
            "binary literal must have at least one digit"@
        } else {
            "octal literal must have at least one digit"@
        },
        None => Seq::empty(),
    }
}

/// What an escape `\c` stands for in a string literal.
pub open spec fn string_escape(c: char) -> Option<char> {
    if c == 'n' {
        Some('\n')
    } else if c == 't' {
        Some('\t')
    } else if c == 'r' {
        Some('\r')
    } else if c == '\\' {
        Some('\\')
    } else if c == '"' {
        Some('"')
    } else {
        None
    }
}

/// What an escape `\c` stands for in a character literal.
pub open spec fn char_escape(c: char) -> Option<char> {
    if c == 'n' {
        Some('\n')
    } else if c == 't' {
        Some('\t')
    } else if c == 'r' {
        Some('\r')
    } else if c == '\\' {
        Some('\\')
    } else if c == '\'' {
        Some('\'')
    } else {
        None
    }
}

/// The body of a literal: its contents and where it ends, or the position
/// of the error that stops it.
pub ghost enum Lexed {
    Body(Seq<char>, int),
    Invalid(int),
}

/// `c` followed by the contents of `l`.
pub open spec fn prepend(c: char, l: Lexed) -> Lexed {
    match l {
        Lexed::Body(s, e) => Lexed::Body(seq![c] + s, e),
        Lexed::Invalid(k) => Lexed::Invalid(k),
    }
}

/// `s` followed by the contents of `l`.
pub open spec fn prepend_all(s: Seq<char>, l: Lexed) -> Lexed {
    match l {
        Lexed::Body(b, e) => Lexed::Body(s + b, e),
        Lexed::Invalid(k) => Lexed::Invalid(k),
    }
}

/// The body of a string literal from `k` on: characters up to the closing
/// `"` (or the end of the text, which also closes it), with escapes
/// replaced; an unknown escape is an error just after its backslash.
pub open spec fn string_body(t: Seq<char>, k: int) -> Lexed
    decreases t.len() - k,
{
    if k < 0 || k >= t.len() {
        Lexed::Body(Seq::empty(), k)
    } else if t[k] == '"' {
        Lexed::Body(Seq::empty(), k + 1)
    } else if t[k] == '\\' {
        if k + 1 < t.len() && string_escape(t[k + 1]) is Some {
            prepend(string_escape(t[k + 1]).unwrap(), string_body(t, k + 2))
        } else {
            Lexed::Invalid(k + 1)
        }
    } else {
        prepend(t[k], string_body(t, k + 1))
    }
}

/// `n` `#` characters follow at `k`.
pub open spec fn hashes_follow(t: Seq<char>, k: int, n: int) -> bool {
    &&& k + n <= t.len()
    &&& forall|m: int| k <= m < k + n ==> t[m] == '#'
}

/// The body of a raw string literal from `k` on, closed by `"` followed by
/// `n` `#`: the characters up to there, taken as they are; the end of the
/// text before the close is an error there.
pub open spec fn raw_body(t: Seq<char>, k: int, n: int) -> Lexed
    decreases t.len() - k,
{
    if k < 0 || k >= t.len() {
        Lexed::Invalid(k)
    } else if t[k] == '"' && hashes_follow(t, k + 1, n) {
        Lexed::Body(Seq::empty(), k + 1 + n)
    } else {
        prepend(t[k], raw_body(t, k + 1, n))
    }
}

/// `e` is the error of `expect_char(c)` at position `i` of `t`.
pub open spec fn expect_error(e: ParseError, t: Seq<char>, i: int, c: char) -> bool {
    if 0 <= i < t.len() {
        is_expected(e, seq!['\'', c, '\''], pos_at(t, i as nat))
    } else {
        is_eof(e, pos_at(t, i as nat))
    }
}

/// `q` and `r` are `p` after reading the body `l` of a literal: a token on
/// success, else an error `msg` at the position where the cursor stopped.
pub open spec fn body_result(p: Parser, q: Parser, r: ParserResult<Syntax>, l: Lexed, msg: Seq<char>) -> bool {
    match l {
        Lexed::Body(s, e) => token_result(p, q, r, e, s),
        Lexed::Invalid(k) => {
            &&& failed_at(p, q, r, k)
            &&& r matches Err(err) && is_custom(*err, msg, pos_at(p.text(), k as nat))
        },
    }
}

/// What `string_literal` does: a `"` must stand at the cursor; the body
/// follows (see `string_body`).
pub open spec fn string_result(p: Parser, q: Parser, r: ParserResult<Syntax>) -> bool {
    let t = p.text();
    let i = p.offset() as int;
    if i < t.len() && t[i] == '"' {
        body_result(p, q, r, string_body(t, i + 1), "invalid escape sequence"@)
    } else {
        &&& failed_at(p, q, r, i)
        &&& r matches Err(e) && expect_error(*e, t, i, '"')
    }
}

/// What `char_literal` does: `'`, then one character or an escape, then
/// `'`; the token reads as that one character.
pub open spec fn char_result(p: Parser, q: Parser, r: ParserResult<Syntax>) -> bool {
    let t = p.text();
    let i = p.offset() as int;
    let k = i + 1;
    if !(i < t.len() && t[i] == '\'') {
        &&& failed_at(p, q, r, i)
        &&& r matches Err(e) && expect_error(*e, t, i, '\'')
    } else if k >= t.len() {
        &&& failed_at(p, q, r, k)
        &&& r matches Err(e) && is_eof(*e, pos_at(t, k as nat))
    } else if t[k] == '\\' && !(k + 1 < t.len() && char_escape(t[k + 1]) is Some) {
        &&& failed_at(p, q, r, k + 1)
        &&& r matches Err(e) && is_custom(*e, "invalid escape sequence"@, pos_at(t, (k + 1) as nat))
    } else {
        let c = if t[k] == '\\' { char_escape(t[k + 1]).unwrap() } else { t[k] };
        let m = if t[k] == '\\' { k + 2 } else { k + 1 };
        if m < t.len() && t[m] == '\'' {
            token_result(p, q, r, m + 1, seq![c])
        } else {
            &&& failed_at(p, q, r, m)
            &&& r matches Err(e) && expect_error(*e, t, m, '\'')
        }
    }
}

/// What `raw_string_literal` does: the character at the cursor (the `r`)
/// is consumed, then a run of `#`, then `"` must follow; the body follows
/// (see `raw_body`), closed by `"` and as many `#`.
pub open spec fn raw_string_result(p: Parser, q: Parser, r: ParserResult<Syntax>) -> bool {
    let t = p.text();
    let i = p.offset() as int;
    let i1 = if i < t.len() { i + 1 } else { i };
    let h = scan(t, i1, hashes());
    if h < t.len() && t[h] == '"' {
        body_result(p, q, r, raw_body(t, h + 1, h - i1), "unterminated raw string literal"@)
    } else {
        &&& failed_at(p, q, r, h)
        &&& r matches Err(e) && expect_error(*e, t, h, '"')
    }
}

proof fn lemma_prepend_push(s: Seq<char>, c: char, l: Lexed)
    ensures
        prepend_all(s.push(c), l) == prepend_all(s, prepend(c, l)),
{
    match l {
        Lexed::Body(b, e) => {
            assert(s.push(c) + b =~= s + (seq![c] + b));
        },
        Lexed::Invalid(k) => {},
    }
}

pub proof fn lemma_string_body(t: Seq<char>, k: int)
    requires
        0 <= k <= t.len(),
    ensures
        string_body(t, k) matches Lexed::Body(s, e) ==> k <= e <= t.len(),
        string_body(t, k) matches Lexed::Invalid(e) ==> k <= e <= t.len(),
    decreases t.len() - k,
{
    if k < t.len() && t[k] != '"' {
        if t[k] == '\\' {
            if k + 1 < t.len() && string_escape(t[k + 1]) is Some {
                lemma_string_body(t, k + 2);
            }
        } else {
            lemma_string_body(t, k + 1);
        }
    }
}

proof fn lemma_raw_body(t: Seq<char>, k: int, n: int)
    requires
        0 <= k <= t.len(),
        0 <= n,
    ensures
        raw_body(t, k, n) matches Lexed::Body(s, e) ==> k <= e <= t.len(),
        raw_body(t, k, n) matches Lexed::Invalid(e) ==> k <= e <= t.len(),
    decreases t.len() - k,
{
    if k < t.len() && !(t[k] == '"' && hashes_follow(t, k + 1, n)) {
        lemma_raw_body(t, k + 1, n);
    }
}

impl Parser {
    /// Reads the digits of a radix literal after its two-character prefix.
    fn radix_digits<F>(&mut self, pred: F, Ghost(d): Ghost<spec_fn(char) -> bool>, prefix: &str) -> (s: String) where
        F: Fn(char) -> bool,
        requires
            old(self).wf(),
            old(self).offset() + 2 <= old(self).text().len(),
            forall|c: char| pred.requires((c,)),
            forall|c: char, b: bool| pred.ensures((c,), b) ==> b == d(c),
        ensures
            final(self).wf(),
            final(self).moved(*old(self), scan(old(self).text(), old(self).offset() as int + 2, d) as nat),
            final(self).offset() as int == scan(old(self).text(), old(self).offset() as int + 2, d),
            s@ == prefix@ + old(self).text().subrange(old(self).offset() as int + 2, final(self).offset() as int),
    {
        proof {
            self.lemma_wf();
            lemma_scan(self.text(), self.offset() as int + 2, d);
        }
        self.advance();
        self.advance();
        let mut s = String::from_str(prefix);
        let digits = self.consume_matching(pred, Ghost(d));
        s.append(digits.as_str());
        s
    }

    /// Parses a numeric literal at the cursor (see `number_result`).
    pub fn number(&mut self) -> (r: ParserResult<Syntax>)
        requires
            old(self).wf(),
        ensures
            final(self).wf(),
            number_result(*old(self), *final(self), r),
    {
        proof { self.lemma_wf(); }
        let ghost t = self.text();
        let ghost i = self.offset() as int;
        proof {
            reveal_strlit("0x");
            reveal_strlit("0b");
            reveal_strlit("0o");
        }
        let start = self.position();
        if !(match self.peek() {
            Some(c) => is_digit(c),
            None => false,
        }) {
            return Err(ParseError::expected("number", start));
        }
        let num = if self.peek() == Some('0') {
            match self.peek_nth(1) {
                Some('x') | Some('X') => {
                    let hex = self.radix_digits(is_hex_digit, Ghost(hex_digits()), "0x");
                    assert(radix_at(t, i) == Some(('x', hex_digits())));
                    proof { lemma_scan(t, i + 2, hex_digits()); }
                    assert(self.offset() == scan(t, i + 2, hex_digits()));
                    assert(hex@.len() == 2 + self.offset() - (i + 2));
                    if hex.as_str().unicode_len() == 2 {
                        assert(self.offset() == i + 2);
                        return Err(
                            ParseError::custom(
                                "hexadecimal literal must have at least one digit",
                                self.position(),
                            ),
                        );
                    }
                    assert(hex@ == seq!['0', 'x'] + t.subrange(i + 2, self.offset() as int));
                    hex
                },
                Some('b') | Some('B') => {
                    let bin = self.radix_digits(is_bin_digit, Ghost(bin_digits()), "0b");
                    assert(radix_at(t, i) == Some(('b', bin_digits())));
                    proof { lemma_scan(t, i + 2, bin_digits()); }
                    assert(self.offset() == scan(t, i + 2, bin_digits()));
                    assert(bin@.len() == 2 + self.offset() - (i + 2));
                    if bin.as_str().unicode_len() == 2 {
                        assert(self.offset() == i + 2);
                        return Err(
                            ParseError::custom(
                                "binary literal must have at least one digit",
                                self.position(),
                            ),
                        );
                    }
                    assert(bin@ == seq!['0', 'b'] + t.subrange(i + 2, self.offset() as int));
                    bin
                },
                Some('o') | Some('O') => {
                    let oct = self.radix_digits(is_oct_digit, Ghost(oct_digits()), "0o");
                    assert(radix_at(t, i) == Some(('o', oct_digits())));
                    proof { lemma_scan(t, i + 2, oct_digits()); }
                    assert(self.offset() == scan(t, i + 2, oct_digits()));
                    assert(oct@.len() == 2 + self.offset() - (i + 2));
                    if oct.as_str().unicode_len() == 2 {
                        assert(self.offset() == i + 2);
                        return Err(
                            ParseError::custom(
                                "octal literal must have at least one digit",
                                self.position(),
                            ),
                        );
                    }
                    assert(oct@ == seq!['0', 'o'] + t.subrange(i + 2, self.offset() as int));
                    oct
                },
                _ => {
                    assert(radix_at(t, i) is None);
                    self.parse_decimal_number()
                },
            }
        } else {
            assert(radix_at(t, i) is None);
            self.parse_decimal_number()
        };
        let range = self.input().range_from(start);
        let atom = self.create_atom(range, num);
        Ok(atom)
    }

    /// Reads a decimal literal at the cursor (see `decimal_end`).
    fn parse_decimal_number(&mut self) -> (s: String)
        requires
            old(self).wf(),
        ensures
            final(self).wf(),
            final(self).moved(*old(self), decimal_end(old(self).text(), old(self).offset() as int) as nat),
            final(self).offset() as int == decimal_end(old(self).text(), old(self).offset() as int),
            s@ == old(self).text().subrange(old(self).offset() as int, final(self).offset() as int),
    {
        proof { self.lemma_wf(); }
        let ghost t = self.text();
        let ghost i = self.offset() as int;
        proof { lemma_scan(t, i, digits()); }
        let mut num = self.consume_matching(is_digit, Ghost(digits()));
        let ghost a = self.offset() as int;
        if self.peek() == Some('.') && (match self.peek_nth(1) {
            Some(c) => is_digit(c),
            None => false,
        }) {
            string_push(&mut num, '.');
            self.advance();
            proof {
                lemma_subrange_push(t, i, a);
                lemma_scan(t, a + 1, digits());
            }
            let frac = self.consume_matching(is_digit, Ghost(digits()));
            num.append(frac.as_str());
            assert(num@ =~= t.subrange(i, self.offset() as int));
        }
        let ghost b = self.offset() as int;
        proof { self.lemma_wf(); }
        match self.peek() {
            Some(ch) => {
                if ch == 'e' || ch == 'E' {
                    string_push(&mut num, ch);
                    self.advance();
                    proof { lemma_subrange_push(t, i, b); }
                    match self.peek() {
                        Some(sign) => {
                            if sign == '+' || sign == '-' {
                                string_push(&mut num, sign);
                                self.advance();
                                proof { lemma_subrange_push(t, i, b + 1); }
                            }
                        },
                        None => {},
                    }
                    let ghost s0 = self.offset() as int;
                    proof { lemma_scan(t, s0, digits()); }
                    let exp = self.consume_matching(is_digit, Ghost(digits()));
                    num.append(exp.as_str());
                    assert(num@ =~= t.subrange(i, self.offset() as int));
                }
            },
            None => {},
        }
        num
    }

    /// Does a raw string `r"` or `r#` start at the cursor?
    pub fn peek_raw_string(&self) -> (b: bool)
        requires
            self.wf(),
        ensures
            b == (self.next_char() == Some('r') && (self.char_at(1) == Some('"') || self.char_at(
                1,
            ) == Some('#'))),
    {
        self.peek() == Some('r') && (self.peek_nth(1) == Some('"') || self.peek_nth(1) == Some(
            '#',
        ))
    }

    /// Does an interpolated string `s!"` start at the cursor?
    pub fn peek_interpolated_string(&self) -> (b: bool)
        requires
            self.wf(),
        ensures
            b == (self.next_char() == Some('s') && self.char_at(1) == Some('!') && self.char_at(2)
                == Some('"')),
    {
        self.peek() == Some('s') && self.peek_nth(1) == Some('!') && self.peek_nth(2) == Some('"')
    }

    /// Does a hexadecimal, binary or octal literal start at the cursor?
    pub fn peek_special_number(&self) -> (b: bool)
        requires
            self.wf(),
        ensures
            b == (radix_at(self.text(), self.offset() as int) is Some),
    {
        if self.peek() != Some('0') {
            return false;
        }
        match self.peek_nth(1) {
            Some('x') | Some('X') => true,
            Some('b') | Some('B') => true,
            Some('o') | Some('O') => true,
            _ => false,
        }
    }

    /// Parses a string literal `"..."` at the cursor (see `string_result`).
    /// Whitespace is not skipped.
    pub fn string_literal(&mut self) -> (r: ParserResult<Syntax>)
        requires
            old(self).wf(),
        ensures
            final(self).wf(),
            string_result(*old(self), *final(self), r),
    {
        proof { self.lemma_wf(); }
        let ghost t = self.text();
        let ghost i = self.offset() as int;
        let start = self.position();
        match self.expect_char('"') {
            Ok(()) => {},
            Err(e) => {
                return Err(e);
            },
        }
        proof { lemma_string_body(t, i + 1); }
        let mut content = String::new();
        loop
            invariant_except_break
                string_body(t, i + 1) == prepend_all(content@, string_body(t, self.offset() as int)),
            invariant
                self.wf(),
                self.moved(*old(self), self.offset()),
                t == self.text(),
                0 <= i,
                i == old(self).offset(),
                i < t.len(),
                t[i] == '"',
                start == pos_at(t, i as nat),
                i + 1 <= self.offset() <= t.len(),
            ensures
                string_body(t, i + 1) == Lexed::Body(content@, self.offset() as int),
            decreases t.len() - self.offset(),
        {
            proof { self.lemma_wf(); }
            let ghost k = self.offset() as int;
            match self.peek() {
                Some(ch) => {
                    if ch == '"' {
                        self.advance();
                        break;
                    } else if ch == '\\' {
                        self.advance();
                        let esc = match self.peek() {
                            Some('n') => '\n',
                            Some('t') => '\t',
                            Some('r') => '\r',
                            Some('\\') => '\\',
                            Some('"') => '"',
                            _ => {
                                proof {
                                    assert(string_body(t, k) == Lexed::Invalid(k + 1));
                                    assert(string_body(t, i + 1) == Lexed::Invalid(k + 1));
                                }
                                return Err(ParseError::custom("invalid escape sequence", self.position()));
                            },
                        };
                        let ghost c0 = content@;
                        self.advance();
                        string_push(&mut content, esc);
                        proof {
                            assert(string_body(t, k) == prepend(esc, string_body(t, k + 2)));
                            lemma_prepend_push(c0, esc, string_body(t, k + 2));
                        }
                    } else {
                        let ghost c0 = content@;
                        string_push(&mut content, ch);
                        self.advance();
                        proof {
                            assert(string_body(t, k) == prepend(ch, string_body(t, k + 1)));
                            lemma_prepend_push(c0, ch, string_body(t, k + 1));
                        }
                    }
                },
                None => {
                    break;
                },
            }
        }
        let range = self.input().range_from(start);
        let atom = self.create_atom(range, content);
        Ok(atom)
    }

    /// Parses a character literal `'c'` at the cursor (see `char_result`).
    pub fn char_literal(&mut self) -> (r: ParserResult<Syntax>)
        requires
            old(self).wf(),
        ensures
            final(self).wf(),
            char_result(*old(self), *final(self), r),
    {
        proof { self.lemma_wf(); }
        let ghost t = self.text();
        let ghost i = self.offset() as int;
        let start = self.position();
        match self.expect_char('\'') {
            Ok(()) => {},
            Err(e) => {
                return Err(e);
            },
        }
        let ch = match self.peek() {
            Some('\\') => {
                self.advance();
                let c = match self.peek() {
                    Some('n') => '\n',
                    Some('t') => '\t',
                    Some('r') => '\r',
                    Some('\\') => '\\',
                    Some('\'') => '\'',
                    _ => {
                        return Err(ParseError::custom("invalid escape sequence", self.position()));
                    },
                };
                self.advance();
                c
            },
            Some(c) => {
                self.advance();
                c
            },
            None => {
                return Err(ParseError::boxed(crate::error::ParseErrorKind::UnexpectedEof, self.position()));
            },
        };
        match self.expect_char('\'') {
            Ok(()) => {},
            Err(e) => {
                return Err(e);
            },
        }
        let mut value = String::new();
        string_push(&mut value, ch);
        let range = self.input().range_from(start);
        let atom = self.create_atom(range, value);
        Ok(atom)
    }

    /// Parses a raw string literal `r#"..."#` at the cursor (see
    /// `raw_string_result`).
    pub fn raw_string_literal(&mut self) -> (r: ParserResult<Syntax>)
        requires
            old(self).wf(),
        ensures
            final(self).wf(),
            raw_string_result(*old(self), *final(self), r),
    {
        proof { self.lemma_wf(); }
        let ghost t = self.text();
        let ghost i = self.offset() as int;
        let start = self.position();
        self.advance();
        let ghost i1 = self.offset() as int;
        proof { lemma_scan(t, i1, hashes()); }
        let run = self.consume_matching(is_hash, Ghost(hashes()));
        let hash_count = run.as_str().unicode_len();
        let ghost h = self.offset() as int;
        match self.expect_char('"') {
            Ok(()) => {},
            Err(e) => {
                return Err(e);
            },
        }
        proof { lemma_raw_body(t, h + 1, h - i1); }
        let mut content = String::new();
        loop
            invariant_except_break
                raw_body(t, h + 1, h - i1) == prepend_all(content@, raw_body(t, self.offset() as int, h - i1)),
            invariant
                self.wf(),
                self.moved(*old(self), self.offset()),
                t == self.text(),
                0 <= i1 <= h,
                i == old(self).offset(),
                i1 == if i < t.len() { i + 1 } else { i },
                hash_count == h - i1,
                h < t.len(),
                t[h] == '"',
                h == scan(t, i1, hashes()),
                start == pos_at(t, i as nat),
                h + 1 <= self.offset() <= t.len(),
            ensures
                raw_body(t, h + 1, h - i1) == Lexed::Body(content@, self.offset() as int),
            decreases t.len() - self.offset(),
        {
            proof { self.lemma_wf(); }
            let ghost k = self.offset() as int;
            match self.peek() {
                Some('"') => {
                    let mut temp_pos: usize = 1;
                    let mut hash_match = true;
                    let mut n: usize = 0;
                    while n < hash_count
                        invariant_except_break
                            hash_match,
                        invariant
                            self.wf(),
                            t == self.text(),
                            k == self.offset(),
                            k < t.len(),
                            n <= hash_count,
                            temp_pos == n + 1,
                            k + 1 + n <= t.len(),
                            forall|m: int| k + 1 <= m < k + 1 + n ==> t[m] == '#',
                            t.len() < usize::MAX,
                        ensures
                            hash_match ==> n == hash_count,
                            !hash_match ==> !hashes_follow(t, k + 1, hash_count as int),
                        decreases hash_count - n,
                    {
                        if self.peek_nth(temp_pos) != Some('#') {
                            proof {
                                if k + 1 + hash_count <= t.len() {
                                    assert(t[k + 1 + n] != '#');
                                }
                                assert(!hashes_follow(t, k + 1, hash_count as int));
                            }
                            hash_match = false;
                            break;
                        }
                        temp_pos += 1;
                        n += 1;
                    }
                    if hash_match {
                        self.advance();
                        let mut m: usize = 0;
                        while m < hash_count
                            invariant
                                self.wf(),
                                self.moved(*old(self), (k + 1 + m) as nat),
                                t == self.text(),
                                m <= hash_count,
                                0 <= k,
                                k + 1 + hash_count <= t.len(),
                            decreases hash_count - m,
                        {
                            self.advance();
                            m += 1;
                        }
                        proof {
                            assert(hashes_follow(t, k + 1, h - i1));
                            assert(raw_body(t, k, h - i1) == Lexed::Body(Seq::empty(), k + 1 + (h - i1)));
                            assert(content@ + Seq::<char>::empty() == content@);
                        }
                        break;
                    } else {
                        let ghost c0 = content@;
                        string_push(&mut content, '"');
                        self.advance();
                        proof {
                            assert(raw_body(t, k, h - i1) == prepend('"', raw_body(t, k + 1, h - i1)));
                            lemma_prepend_push(c0, '"', raw_body(t, k + 1, h - i1));
                        }
                    }
                },
                Some(ch) => {
                    let ghost c0 = content@;
                    string_push(&mut content, ch);
                    self.advance();
                    proof {
                        assert(raw_body(t, k, h - i1) == prepend(ch, raw_body(t, k + 1, h - i1)));
                        lemma_prepend_push(c0, ch, raw_body(t, k + 1, h - i1));
                    }
                },
                None => {
                    proof {
                        assert(raw_body(t, k, h - i1) == Lexed::Invalid(k));
                    }
                    return Err(
                        ParseError::custom("unterminated raw string literal", self.position()),
                    );
                },
            }
        }
        let range = self.input().range_from(start);
        let atom = self.create_atom(range, content);
        Ok(atom)
    }
}

/// Escapes inside a string literal: after a backslash, `n` stands for a
/// line feed (U+000A), `t` for a tab (U+0009), `r` for a carriage return
/// (U+000D), `\` for a backslash and `"` for a quote, and the body reads on
/// after the escape; any other character there makes the escape invalid,
/// reported just after the backslash.
pub proof fn law_string_escapes(t: Seq<char>, k: int)
    requires
        0 <= k,
        k + 1 < t.len(),
        t[k] == '\\',
    ensures
        t[k + 1] == 'n' ==> string_body(t, k) == prepend('\u{a}', string_body(t, k + 2)),
        t[k + 1] == 't' ==> string_body(t, k) == prepend('\u{9}', string_body(t, k + 2)),
        t[k + 1] == 'r' ==> string_body(t, k) == prepend('\u{d}', string_body(t, k + 2)),
        t[k + 1] == '\\' ==> string_body(t, k) == prepend('\\', string_body(t, k + 2)),
        t[k + 1] == '"' ==> string_body(t, k) == prepend('"', string_body(t, k + 2)),
        !(t[k + 1] == 'n' || t[k + 1] == 't' || t[k + 1] == 'r' || t[k + 1] == '\\' || t[k + 1] == '"')
            ==> string_body(t, k) == Lexed::Invalid(k + 1),
{
}

/// Outside escapes a string body is taken as written: it ends just after
/// the first `"` (or at the end of the text, with what came before), and
/// any other character stands for itself.
pub proof fn law_string_body_plain(t: Seq<char>, k: int)
    requires
        0 <= k,
    ensures
        k >= t.len() ==> string_body(t, k) == Lexed::Body(Seq::<char>::empty(), k),
        k < t.len() && t[k] == '"' ==> string_body(t, k) == Lexed::Body(Seq::<char>::empty(), k + 1),
        k < t.len() && t[k] != '"' && t[k] != '\\' ==> string_body(t, k) == prepend(t[k], string_body(t, k + 1)),
{
}

/// A raw string body takes every character as written, a backslash too,
/// and ends just after the first `"` followed by `n` `#`; the end of the
/// text before that is an error there.
pub proof fn law_raw_body(t: Seq<char>, k: int, n: int)
    requires
        0 <= k,
        0 <= n,
    ensures
        k >= t.len() ==> raw_body(t, k, n) == Lexed::Invalid(k),
        k < t.len() && t[k] == '"' && k + 1 + n <= t.len() && (forall|m: int| k + 1 <= m < k + 1 + n ==> #[trigger] t[m] == '#')
            ==> raw_body(t, k, n) == Lexed::Body(Seq::<char>::empty(), k + 1 + n),
        k < t.len() && t[k] != '"' ==> raw_body(t, k, n) == prepend(t[k], raw_body(t, k + 1, n)),
{
}

/// A string literal that opens with an escape reads as the character the
/// escape names followed by the rest of its body: `"\t..."` gives a tab
/// (U+0009) first, never the letter `t`, and likewise a line feed for `\n`
/// and a carriage return for `\r`; an unknown escape fails.
pub proof fn law_string_literal_escape(p: Parser, q: Parser, r: ParserResult<Syntax>, b: Seq<char>, e: int)
    requires
        string_result(p, q, r),
        p.offset() + 2int < p.text().len(),
        p.text()[p.offset() as int] == '"',
        p.text()[p.offset() + 1int] == '\\',
        string_body(p.text(), p.offset() + 3int) == Lexed::Body(b, e),
    ensures
        ({
            let c = p.text()[p.offset() + 2int];
            &&& c == 't' ==> (r matches Ok(s) && (s matches Syntax::Atom(a) && a.value@ == seq!['\u{9}'] + b))
            &&& c == 'n' ==> (r matches Ok(s) && (s matches Syntax::Atom(a) && a.value@ == seq!['\u{a}'] + b))
            &&& c == 'r' ==> (r matches Ok(s) && (s matches Syntax::Atom(a) && a.value@ == seq!['\u{d}'] + b))
            &&& c == '\\' ==> (r matches Ok(s) && (s matches Syntax::Atom(a) && a.value@ == seq!['\\'] + b))
            &&& c == '"' ==> (r matches Ok(s) && (s matches Syntax::Atom(a) && a.value@ == seq!['"'] + b))
            &&& !(c == 'n' || c == 't' || c == 'r' || c == '\\' || c == '"') ==> r is Err
        }),
{
    law_string_escapes(p.text(), p.offset() + 1int);
}

/// A character literal `'\c'` reads as the character the escape names: a
/// line feed for `n`, a tab (U+0009) for `t`, a carriage return for `r`, a
/// backslash for `\` and a quote for `'`; any other escape fails.
pub proof fn law_char_literal_escape(p: Parser, q: Parser, r: ParserResult<Syntax>)
    requires
        char_result(p, q, r),
        p.offset() + 3int < p.text().len(),
        p.text()[p.offset() as int] == '\'',
        p.text()[p.offset() + 1int] == '\\',
        p.text()[p.offset() + 3int] == '\'',
    ensures
        ({
            let c = p.text()[p.offset() + 2int];
            &&& c == 't' ==> (r matches Ok(s) && (s matches Syntax::Atom(a) && a.value@ == seq!['\u{9}']))
            &&& c == 'n' ==> (r matches Ok(s) && (s matches Syntax::Atom(a) && a.value@ == seq!['\u{a}']))
            &&& c == 'r' ==> (r matches Ok(s) && (s matches Syntax::Atom(a) && a.value@ == seq!['\u{d}']))
            &&& c == '\\' ==> (r matches Ok(s) && (s matches Syntax::Atom(a) && a.value@ == seq!['\\']))
            &&& c == '\'' ==> (r matches Ok(s) && (s matches Syntax::Atom(a) && a.value@ == seq!['\'']))
            &&& !(c == 'n' || c == 't' || c == 'r' || c == '\\' || c == '\'') ==> r is Err
        }),
{
}

/// A number `0x…` (or `0X…`) reads as `0x` and the run of hexadecimal digits
/// (`0`-`9`, `a`-`f`, `A`-`F`) that follows, which must not be empty and
/// ends at the first other character.
pub proof fn law_number_hex(p: Parser, q: Parser, r: ParserResult<Syntax>)
    requires
        number_result(p, q, r),
        p.offset() + 1 < p.text().len(),
        p.text()[p.offset() as int] == '0',
        p.text()[p.offset() + 1int] == 'x' || p.text()[p.offset() + 1int] == 'X',
    ensures
        ({
            let t = p.text();
            let i = p.offset() as int;
            &&& r is Ok <==> (i + 2 < t.len() && (('0' <= t[i + 2] && t[i + 2] <= '9') || ('a' <= t[i + 2] && t[i + 2] <= 'f') || ('A' <= t[i + 2] && t[i + 2] <= 'F')))
            &&& r matches Ok(s) ==> (s matches Syntax::Atom(a) && {
                &&& a.value@.len() >= 3
                &&& a.value@[0] == '0'
                &&& a.value@[1] == 'x'
                &&& a.value@.drop_first().drop_first() == t.subrange(i + 2, q.offset() as int)
                &&& forall|k: int| i + 2 <= k < q.offset() ==> (('0' <= #[trigger] t[k] && #[trigger] t[k] <= '9') || ('a' <= #[trigger] t[k] && #[trigger] t[k] <= 'f') || ('A' <= #[trigger] t[k] && #[trigger] t[k] <= 'F'))
                &&& q.offset() < t.len() ==> !((('0' <= t[q.offset() as int] && t[q.offset() as int] <= '9') || ('a' <= t[q.offset() as int] && t[q.offset() as int] <= 'f') || ('A' <= t[q.offset() as int] && t[q.offset() as int] <= 'F')))
            })
        }),
{
    lemma_scan(p.text(), p.offset() + 2int, { let (_, d) = radix_at(p.text(), p.offset() as int)->Some_0; d });
    let t = p.text();
    let i = p.offset() as int;
    let d = radix_at(t, i)->Some_0.1;
    let e = scan(t, i + 2, d);
    if e > i + 2 {
        let v = seq!['0', 'x'] + t.subrange(i + 2, e);
        assert(v.drop_first().drop_first() =~= t.subrange(i + 2, e));
    }
}

/// A number `0b…` (or `0B…`) reads as `0b` and the run of binary digits (`0`
/// and `1`) that follows, which must not be empty and ends at the first
/// other character.
pub proof fn law_number_binary(p: Parser, q: Parser, r: ParserResult<Syntax>)
    requires
        number_result(p, q, r),
        p.offset() + 1 < p.text().len(),
        p.text()[p.offset() as int] == '0',
        p.text()[p.offset() + 1int] == 'b' || p.text()[p.offset() + 1int] == 'B',
    ensures
        ({
            let t = p.text();
            let i = p.offset() as int;
            &&& r is Ok <==> (i + 2 < t.len() && (t[i + 2] == '0' || t[i + 2] == '1'))
            &&& r matches Ok(s) ==> (s matches Syntax::Atom(a) && {
                &&& a.value@.len() >= 3
                &&& a.value@[0] == '0'
                &&& a.value@[1] == 'b'
                &&& a.value@.drop_first().drop_first() == t.subrange(i + 2, q.offset() as int)
                &&& forall|k: int| i + 2 <= k < q.offset() ==> (#[trigger] t[k] == '0' || #[trigger] t[k] == '1')
                &&& q.offset() < t.len() ==> !((t[q.offset() as int] == '0' || t[q.offset() as int] == '1'))
            })
        }),
{
    lemma_scan(p.text(), p.offset() + 2int, { let (_, d) = radix_at(p.text(), p.offset() as int)->Some_0; d });
    let t = p.text();
    let i = p.offset() as int;
    let d = radix_at(t, i)->Some_0.1;
    let e = scan(t, i + 2, d);
    if e > i + 2 {
        let v = seq!['0', 'b'] + t.subrange(i + 2, e);
        assert(v.drop_first().drop_first() =~= t.subrange(i + 2, e));
    }
}

/// A number `0o…` (or `0O…`) reads as `0o` and the run of octal digits
/// (`0`-`7`) that follows, which must not be empty and ends at the first
/// other character.
pub proof fn law_number_octal(p: Parser, q: Parser, r: ParserResult<Syntax>)
    requires
        number_result(p, q, r),
        p.offset() + 1 < p.text().len(),
        p.text()[p.offset() as int] == '0',
        p.text()[p.offset() + 1int] == 'o' || p.text()[p.offset() + 1int] == 'O',
    ensures
        ({
            let t = p.text();
            let i = p.offset() as int;
            &&& r is Ok <==> (i + 2 < t.len() && ('0' <= t[i + 2] && t[i + 2] <= '7'))
            &&& r matches Ok(s) ==> (s matches Syntax::Atom(a) && {
                &&& a.value@.len() >= 3
                &&& a.value@[0] == '0'
                &&& a.value@[1] == 'o'
                &&& a.value@.drop_first().drop_first() == t.subrange(i + 2, q.offset() as int)
                &&& forall|k: int| i + 2 <= k < q.offset() ==> ('0' <= #[trigger] t[k] && #[trigger] t[k] <= '7')
                &&& q.offset() < t.len() ==> !(('0' <= t[q.offset() as int] && t[q.offset() as int] <= '7'))
            })
        }),
{
    lemma_scan(p.text(), p.offset() + 2int, { let (_, d) = radix_at(p.text(), p.offset() as int)->Some_0; d });
    let t = p.text();
    let i = p.offset() as int;
    let d = radix_at(t, i)->Some_0.1;
    let e = scan(t, i + 2, d);
    if e > i + 2 {
        let v = seq!['0', 'o'] + t.subrange(i + 2, e);
        assert(v.drop_first().drop_first() =~= t.subrange(i + 2, e));
    }
}

/// A number that starts with a digit and no radix prefix reads as the text
/// it spans, taken as written: digits, at most one fraction `.` (followed
/// by a digit) and at most one exponent `e` or `E` (perhaps with a sign),
/// the fraction before the exponent. It never stops right before a digit,
/// before a `.` and a digit while it has neither fraction nor exponent, or
/// before an `e` or `E` while it has no exponent.
pub proof fn law_number_decimal(p: Parser, q: Parser, r: ParserResult<Syntax>)
    requires
        number_result(p, q, r),
        p.offset() < p.text().len(),
        '0' <= p.text()[p.offset() as int] <= '9',
        !(p.offset() + 1 < p.text().len() && p.text()[p.offset() as int] == '0' && (p.text()[p.offset() + 1int] == 'x'
            || p.text()[p.offset() + 1int] == 'X' || p.text()[p.offset() + 1int] == 'b' || p.text()[p.offset() + 1int] == 'B'
            || p.text()[p.offset() + 1int] == 'o' || p.text()[p.offset() + 1int] == 'O')),
    ensures
        r matches Ok(s) && s matches Syntax::Atom(a) && a.value@ == p.text().subrange(p.offset() as int, q.offset() as int),
        p.offset() < q.offset() <= p.text().len(),
        ({
            let t = p.text();
            let i = p.offset() as int;
            let e = q.offset() as int;
            &&& e < t.len() ==> !('0' <= t[e] <= '9')
            &&& forall|k: int| i <= k < e ==> ('0' <= #[trigger] t[k] <= '9' || t[k] == '.' || t[k] == 'e' || t[k] == 'E'
                || ((t[k] == '+' || t[k] == '-') && k > i && (t[k - 1] == 'e' || t[k - 1] == 'E')))
            &&& forall|k1: int, k2: int|
                #![trigger t[k1], t[k2]]
                i <= k1 < k2 < e && (t[k1] == 'e' || t[k1] == 'E') ==> t[k2] != '.' && t[k2] != 'e' && t[k2] != 'E'
            &&& forall|k1: int, k2: int| #![trigger t[k1], t[k2]] i <= k1 < k2 < e && t[k1] == '.' ==> t[k2] != '.'
            &&& (e + 1 < t.len() && t[e] == '.' && '0' <= t[e + 1] <= '9') ==> exists|k: int|
                i <= k < e && (#[trigger] t[k] == '.' || t[k] == 'e' || t[k] == 'E')
            &&& (e < t.len() && (t[e] == 'e' || t[e] == 'E')) ==> exists|k: int| i <= k < e && (#[trigger] t[k] == 'e' || t[k] == 'E')
        }),
{
    let t = p.text();
    let i = p.offset() as int;
    let a = scan(t, i, digits());
    lemma_scan(t, i, digits());
    let frac = a + 1 < t.len() && t[a] == '.' && spec_is_digit(t[a + 1]);
    let b = if frac { scan(t, a + 1, digits()) } else { a };
    if frac {
        lemma_scan(t, a + 1, digits());
        assert(t[a + 1] == t[a + 1]);
    }
    if 0 <= b < t.len() && (t[b] == 'e' || t[b] == 'E') {
        let s2 = if b + 1 < t.len() && (t[b + 1] == '+' || t[b + 1] == '-') { b + 2 } else { b + 1 };
        lemma_scan(t, s2, digits());
        assert(t[b] == 'e' || t[b] == 'E');
    }
}

} // verus!
