//! Character classes of the Lean lexer.
use vstd::prelude::*;

verus! {

/// ASCII decimal digit.
pub open spec fn spec_is_digit(c: char) -> bool {
    '0' <= c && c <= '9'
}

/// ASCII hexadecimal digit.
pub open spec fn spec_is_hex_digit(c: char) -> bool {
    ('0' <= c && c <= '9') || ('a' <= c && c <= 'f') || ('A' <= c && c <= 'F')
}

/// ASCII letter.
pub open spec fn spec_is_ascii_alpha(c: char) -> bool {
    ('a' <= c && c <= 'z') || ('A' <= c && c <= 'Z')
}

/// The characters with the Unicode `White_Space` property.
pub open spec fn spec_is_whitespace(c: char) -> bool {
    ||| ('\u{9}' <= c && c <= '\u{d}')
    ||| c == ' '
    ||| c == '\u{85}'
    ||| c == '\u{a0}'
    ||| c == '\u{1680}'
    ||| ('\u{2000}' <= c && c <= '\u{200a}')
    ||| c == '\u{2028}'
    ||| c == '\u{2029}'
    ||| c == '\u{202f}'
    ||| c == '\u{205f}'
    ||| c == '\u{3000}'
}

/// Letter-like symbols that Lean accepts in identifiers: Greek (but not
/// λ, Π and Σ), Coptic, polytonic Greek, the letterlike block and the
/// mathematical alphanumeric letters.
pub open spec fn spec_is_letter_like(c: char) -> bool {
    ||| ('\u{3b1}' <= c && c <= '\u{3c9}' && c != '\u{3bb}')
    ||| ('\u{391}' <= c && c <= '\u{3a9}' && c != '\u{3a0}' && c != '\u{3a3}')
    ||| ('\u{3ca}' <= c && c <= '\u{3fb}')
    ||| ('\u{1f00}' <= c && c <= '\u{1ffe}')
    ||| ('\u{2100}' <= c && c <= '\u{214f}')
    ||| ('\u{1d49c}' <= c && c <= '\u{1d59f}')
}

/// Subscript digits and letters.
pub open spec fn spec_is_subscript_alnum(c: char) -> bool {
    ||| ('\u{2080}' <= c && c <= '\u{2089}')
    ||| ('\u{2090}' <= c && c <= '\u{209c}')
    ||| ('\u{1d62}' <= c && c <= '\u{1d6a}')
}

/// A character that may start an identifier.
pub open spec fn spec_is_id_start(c: char) -> bool {
    spec_is_ascii_alpha(c) || c == '_' || spec_is_letter_like(c)
}

/// A character that may continue an identifier.
pub open spec fn spec_is_id_continue(c: char) -> bool {
    ||| spec_is_ascii_alpha(c)
    ||| spec_is_digit(c)
    ||| c == '_'
    ||| c == '\''
    ||| c == '!'
    ||| c == '?'
    ||| spec_is_letter_like(c)
    ||| spec_is_subscript_alnum(c)
}

/// Is `c` an ASCII decimal digit?
pub fn is_digit(c: char) -> (b: bool)
    ensures
        b == spec_is_digit(c),
{
    '0' <= c && c <= '9'
}

/// Is `c` an ASCII hexadecimal digit?
pub fn is_hex_digit(c: char) -> (b: bool)
    ensures
        b == spec_is_hex_digit(c),
{
    ('0' <= c && c <= '9') || ('a' <= c && c <= 'f') || ('A' <= c && c <= 'F')
}

/// Does `c` have the Unicode `White_Space` property?
pub fn is_whitespace(c: char) -> (b: bool)
    ensures
        b == spec_is_whitespace(c),
{
    ('\u{9}' <= c && c <= '\u{d}') || c == ' ' || c == '\u{85}' || c == '\u{a0}' || c
        == '\u{1680}' || ('\u{2000}' <= c && c <= '\u{200a}') || c == '\u{2028}' || c
        == '\u{2029}' || c == '\u{202f}' || c == '\u{205f}' || c == '\u{3000}'
}

/// Is `c` anything but a newline?
pub fn is_not_newline(c: char) -> (b: bool)
    ensures
        b == (c != '\n'),
{
    c != '\n'
}

/// Is `c` a binary digit?
pub fn is_bin_digit(c: char) -> (b: bool)
    ensures
        b == (c == '0' || c == '1'),
{
    c == '0' || c == '1'
}

/// Is `c` an octal digit?
pub fn is_oct_digit(c: char) -> (b: bool)
    ensures
        b == ('0' <= c && c <= '7'),
{
    '0' <= c && c <= '7'
}

/// Is `c` a `#`?
pub fn is_hash(c: char) -> (b: bool)
    ensures
        b == (c == '#'),
{
    c == '#'
}

/// Is `c` anything but a closing guillemet?
pub fn is_not_close_guillemet(c: char) -> (b: bool)
    ensures
        b == (c != '»'),
{
    c != '»'
}

/// Is `c` a letter-like symbol accepted in identifiers?
pub fn is_letter_like(c: char) -> (b: bool)
    ensures
        b == spec_is_letter_like(c),
{
    ('\u{3b1}' <= c && c <= '\u{3c9}' && c != '\u{3bb}') || ('\u{391}' <= c && c <= '\u{3a9}'
        && c != '\u{3a0}' && c != '\u{3a3}') || ('\u{3ca}' <= c && c <= '\u{3fb}') || (
    '\u{1f00}' <= c && c <= '\u{1ffe}') || ('\u{2100}' <= c && c <= '\u{214f}') || (
    '\u{1d49c}' <= c && c <= '\u{1d59f}')
}

/// Is `c` a subscript digit or letter?
pub fn is_subscript_alnum(c: char) -> (b: bool)
    ensures
        b == spec_is_subscript_alnum(c),
{
    ('\u{2080}' <= c && c <= '\u{2089}') || ('\u{2090}' <= c && c <= '\u{209c}') || (
    '\u{1d62}' <= c && c <= '\u{1d6a}')
}

/// May `c` start an identifier?
pub fn is_id_start(c: char) -> (b: bool)
    ensures
        b == spec_is_id_start(c),
{
    ('a' <= c && c <= 'z') || ('A' <= c && c <= 'Z') || c == '_' || is_letter_like(c)
}

/// May `c` continue an identifier?
pub fn is_id_continue(c: char) -> (b: bool)
    ensures
        b == spec_is_id_continue(c),
{
    ('a' <= c && c <= 'z') || ('A' <= c && c <= 'Z') || ('0' <= c && c <= '9') || c == '_' || c
        == '\'' || c == '!' || c == '?' || is_letter_like(c) || is_subscript_alnum(c)
}

/// The characters of Latin-1 (below U+0100) with the Unicode `Alphabetic`
/// property: the ASCII letters, `ª`, `µ`, `º`, and the letters from `À` to
/// `ÿ` but for `×` and `÷`.
pub open spec fn spec_is_latin1_alpha(c: char) -> bool {
    ||| spec_is_ascii_alpha(c)
    ||| c == '\u{aa}' || c == '\u{b5}' || c == '\u{ba}'
    ||| '\u{c0}' <= c <= '\u{d6}'
    ||| '\u{d8}' <= c <= '\u{f6}'
    ||| '\u{f8}' <= c <= '\u{ff}'
}

/// What `char::is_alphabetic` answers: whether the character has the Unicode
/// `Alphabetic` property.
pub uninterp spec fn unicode_alphabetic(c: char) -> bool;

/// Calls `char::is_alphabetic`. The contract claims that the answer is a
/// function of the character alone, and which characters of Latin-1 are
/// alphabetic, as the Unicode `Alphabetic` property that the function's
/// documentation names has it; of the others it says nothing.
#[verifier::external_body]
pub fn is_alphabetic(c: char) -> (b: bool)
    ensures
        b == unicode_alphabetic(c),
        (c as u32) < 256 ==> (b == spec_is_latin1_alpha(c)),
{
    c.is_alphabetic()
}

/// What `char::is_numeric` answers: whether the character is in one of
/// the Unicode general categories for numbers (`Nd`, `Nl`, `No`).
pub uninterp spec fn unicode_numeric(c: char) -> bool;

/// Calls `char::is_numeric`. The contract claims that the answer is a
/// function of the character alone, and that among the ASCII characters
/// exactly the decimal digits are numeric, as the general categories that
/// the function's documentation names have it; of the others it says
/// nothing.
#[verifier::external_body]
pub fn is_numeric(c: char) -> (b: bool)
    ensures
        b == unicode_numeric(c),
        (c as u32) < 128 ==> (b == spec_is_digit(c)),
{
    c.is_numeric()
}

} // verus!
