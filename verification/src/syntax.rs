//! The syntax tree produced by the parser: source positions, trivia
//! (whitespace and comments), atoms and nodes.
use vstd::prelude::*;
use vstd::utf8::{char_is_scalar, encode_scalar, encode_utf8};

verus! {

/// A position in the source text. `line` and `column` count from 1 (a
/// column is one character), `offset` counts bytes of the UTF-8 text from 0.
#[derive(Debug, Clone, Copy, PartialEq, Eq, Structural)]
pub struct SourcePos {
    pub line: usize,
    pub column: usize,
    pub offset: usize,
}

/// A half-open span of source text.
#[derive(Debug, Clone, Copy, PartialEq, Eq, Structural)]
pub struct SourceRange {
    pub start: SourcePos,
    pub end: SourcePos,
}

impl SourcePos {
    pub fn new(line: usize, column: usize, offset: usize) -> (p: SourcePos)
        ensures
            p.line == line,
            p.column == column,
            p.offset == offset,
    {
        SourcePos { line, column, offset }
    }
}

/// Line and column (both from 1) reached after reading the first `i`
/// characters of `text`: a newline starts a new line at column 1, any other
/// character moves one column to the right.
pub open spec fn line_col(text: Seq<char>, i: nat) -> (nat, nat)
    decreases i,
{
    if i == 0 {
        (1, 1)
    } else {
        let lc = line_col(text, (i - 1) as nat);
        if text[i - 1] == '\n' {
            (lc.0 + 1, 1)
        } else {
            (lc.0, lc.1 + 1)
        }
    }
}

/// The number of bytes in the UTF-8 encoding of `c`.
pub open spec fn char_utf8_len(c: char) -> nat {
    if (c as u32) < 0x80 {
        1
    } else if (c as u32) < 0x800 {
        2
    } else if (c as u32) < 0x10000 {
        3
    } else {
        4
    }
}

/// The number of bytes in the UTF-8 encoding of the first `i` characters
/// of `text`.
#[verifier::opaque]
pub open spec fn utf8_offset(text: Seq<char>, i: nat) -> nat
    decreases i,
{
    if i == 0 {
        0
    } else {
        utf8_offset(text, (i - 1) as nat) + char_utf8_len(text[i - 1])
    }
}

/// The source position of character index `i` of `text`.
pub open spec fn pos_at(text: Seq<char>, i: nat) -> SourcePos {
    SourcePos {
        line: line_col(text, i).0 as usize,
        column: line_col(text, i).1 as usize,
        offset: utf8_offset(text, i) as usize,
    }
}

/// No character is read before the start, and each one read adds its
/// UTF-8 length.
pub proof fn lemma_utf8_offset_step(text: Seq<char>, i: nat)
    ensures
        utf8_offset(text, 0) == 0,
        utf8_offset(text, i + 1) == utf8_offset(text, i) + char_utf8_len(text[i as int]),
{
    reveal(utf8_offset);
}

/// Reading more characters never lowers the byte count, and every
/// character takes at least one byte.
pub proof fn lemma_utf8_offset_monotone(text: Seq<char>, i: nat, j: nat)
    requires
        i <= j,
    ensures
        utf8_offset(text, i) + (j - i) <= utf8_offset(text, j),
    decreases j,
{
    reveal(utf8_offset);
    if i < j {
        lemma_utf8_offset_monotone(text, i, (j - 1) as nat);
    }
}

/// `encode_scalar` gives a character as many bytes as `char_utf8_len`.
proof fn lemma_encode_scalar_len(c: char)
    ensures
        encode_scalar(c as u32).len() == char_utf8_len(c),
{
    char_is_scalar(c);
}

/// The byte count of one more character is what `encode_utf8` gives it.
proof fn lemma_encode_utf8_push(a: Seq<char>, c: char)
    ensures
        encode_utf8(a.push(c)).len() == encode_utf8(a).len() + char_utf8_len(c),
    decreases a.len(),
{
    lemma_encode_scalar_len(c);
    if a.len() == 0 {
        assert(a.push(c).drop_first() =~= Seq::<char>::empty());
        assert(a.push(c)[0] == c);
        assert(encode_utf8(Seq::<char>::empty()) =~= Seq::<u8>::empty());
    } else {
        assert(a.push(c).drop_first() =~= a.drop_first().push(c));
        assert(a.push(c)[0] == a[0]);
        lemma_encode_utf8_push(a.drop_first(), c);
    }
}

/// The byte count of a prefix is the length of its UTF-8 encoding.
pub proof fn lemma_utf8_offset_encoding(text: Seq<char>, i: nat)
    requires
        i <= text.len(),
    ensures
        utf8_offset(text, i) == encode_utf8(text.take(i as int)).len(),
    decreases i,
{
    reveal(utf8_offset);
    if i == 0 {
        assert(text.take(0) =~= Seq::<char>::empty());
    } else {
        lemma_utf8_offset_encoding(text, (i - 1) as nat);
        assert(text.take(i as int) =~= text.take(i - 1).push(text[i - 1]));
        lemma_encode_utf8_push(text.take(i - 1), text[i - 1]);
    }
}

/// The span of `text` between character indices `s` and `e`.
pub open spec fn range_at(text: Seq<char>, s: nat, e: nat) -> SourceRange {
    SourceRange { start: pos_at(text, s), end: pos_at(text, e) }
}

/// Line and column never exceed the number of characters read plus one.
pub proof fn lemma_line_col_bounds(text: Seq<char>, i: nat)
    ensures
        1 <= line_col(text, i).0 <= i + 1,
        1 <= line_col(text, i).1 <= i + 1,
    decreases i,
{
    if i > 0 {
        lemma_line_col_bounds(text, (i - 1) as nat);
    }
}

/// The kind of a piece of trivia.
#[derive(Debug, Clone, Copy, PartialEq, Eq, Structural)]
pub enum TriviaKind {
    Whitespace,
    LineComment,
    BlockComment,
    DocComment,
}

/// Whitespace or a comment, kept with the token that follows it.
#[derive(Debug, Clone)]
pub struct Trivia {
    pub kind: TriviaKind,
    pub range: SourceRange,
    pub text: String,
}

impl Trivia {
    /// A copy of this trivia.
    pub fn duplicate(&self) -> (t: Trivia)
        ensures
            t.kind == self.kind,
            t.range == self.range,
            t.text@ == self.text@,
    {
        Trivia { kind: self.kind, range: self.range, text: self.text.clone() }
    }
}

/// The kinds of syntax nodes.
#[derive(Debug, Clone, Copy, PartialEq, Eq, Structural)]
pub enum SyntaxKind {
    Module,
    Import,
    Namespace,
    Section,
    Open,
    End,
    Universe,
    Def,
    Theorem,
    Axiom,
    Constant,
    Variable,
    Example,
    Instance,
    Structure,
    Inductive,
    Class,
    Abbrev,
    Mutual,
    Field,
    Constructor,
    Deriving,
    Identifier,
    App,
    ExplicitApp,
    Lambda,
    Forall,
    Arrow,
    BinOp,
    UnaryOp,
    Let,
    Have,
    Show,
    Match,
    MatchArm,
    Do,
    Bind,
    Return,
    List,
    Projection,
    Subtype,
    AnonymousConstructor,
    StringLit,
    StringInterpolation,
    LeftParen,
    LeftBrace,
    LeftBracket,
    ConstructorPattern,
    WildcardPattern,
    TuplePattern,
    Attribute,
    AttributeList,
    CustomTactic,
    Error,
}

/// A leaf of the syntax tree: a token with its text.
#[derive(Debug, Clone)]
pub struct SyntaxAtom {
    pub range: SourceRange,
    pub value: String,
    pub leading_trivia: Vec<Trivia>,
    pub trailing_trivia: Vec<Trivia>,
}

/// An inner node of the syntax tree.
#[derive(Debug)]
pub struct SyntaxNode {
    pub kind: SyntaxKind,
    pub range: SourceRange,
    pub children: Vec<Syntax>,
    pub leading_trivia: Vec<Trivia>,
    pub trailing_trivia: Vec<Trivia>,
}

/// A syntax tree.
#[derive(Debug)]
pub enum Syntax {
    Missing,
    Atom(SyntaxAtom),
    Node(Box<SyntaxNode>),
}

impl SyntaxAtom {
    pub fn new(range: SourceRange, value: String) -> (a: SyntaxAtom)
        ensures
            a.range == range,
            a.value@ == value@,
            a.leading_trivia@.len() == 0,
            a.trailing_trivia@.len() == 0,
    {
        SyntaxAtom { range, value, leading_trivia: Vec::new(), trailing_trivia: Vec::new() }
    }
}

impl SyntaxNode {
    pub fn new(kind: SyntaxKind, range: SourceRange, children: Vec<Syntax>) -> (n: SyntaxNode)
        ensures
            n.kind == kind,
            n.range == range,
            n.children@ == children@,
            n.leading_trivia@.len() == 0,
            n.trailing_trivia@.len() == 0,
    {
        SyntaxNode {
            kind,
            range,
            children,
            leading_trivia: Vec::new(),
            trailing_trivia: Vec::new(),
        }
    }
}

} // verus!
