//! Parse errors and diagnostics.
use vstd::prelude::*;
use crate::syntax::{SourcePos, SourceRange};

verus! {

/// What went wrong.
#[derive(Debug, Clone)]
pub enum ParseErrorKind {
    /// Something else was expected here; the text says what.
    Expected(String),
    /// The input ended too early.
    UnexpectedEof,
    /// Any other error, with its message.
    Custom(String),
}

/// A parse error at a source position.
#[derive(Debug, Clone)]
pub struct ParseError {
    pub kind: ParseErrorKind,
    pub position: SourcePos,
}

/// The result of a parsing function.
pub type ParserResult<T> = Result<T, Box<ParseError>>;

/// `e` says that `what` was expected at `pos`.
pub open spec fn is_expected(e: ParseError, what: Seq<char>, pos: SourcePos) -> bool {
    &&& e.kind matches ParseErrorKind::Expected(m) && m@ == what
    &&& e.position == pos
}

/// `e` is an error with message `msg` at `pos`.
pub open spec fn is_custom(e: ParseError, msg: Seq<char>, pos: SourcePos) -> bool {
    &&& e.kind matches ParseErrorKind::Custom(m) && m@ == msg
    &&& e.position == pos
}

/// `e` says that the input ended at `pos`.
pub open spec fn is_eof(e: ParseError, pos: SourcePos) -> bool {
    &&& e.kind is UnexpectedEof
    &&& e.position == pos
}

/// `a` and `b` say the same.
pub open spec fn same_error(a: ParseError, b: ParseError) -> bool {
    &&& a.position == b.position
    &&& match (a.kind, b.kind) {
        (ParseErrorKind::Expected(x), ParseErrorKind::Expected(y)) => x@ == y@,
        (ParseErrorKind::UnexpectedEof, ParseErrorKind::UnexpectedEof) => true,
        (ParseErrorKind::Custom(x), ParseErrorKind::Custom(y)) => x@ == y@,
        _ => false,
    }
}

impl ParseError {
    pub fn new(kind: ParseErrorKind, position: SourcePos) -> (e: ParseError)
        ensures
            e.kind == kind,
            e.position == position,
    {
        ParseError { kind, position }
    }

    /// A boxed error, as parsing functions return it.
    pub fn boxed(kind: ParseErrorKind, position: SourcePos) -> (e: Box<ParseError>)
        ensures
            e.kind == kind,
            e.position == position,
    {
        Box::new(ParseError { kind, position })
    }

    /// An error saying that `what` was expected at `position`.
    pub fn expected(what: &str, position: SourcePos) -> (e: Box<ParseError>)
        ensures
            is_expected(*e, what@, position),
    {
        Box::new(ParseError { kind: ParseErrorKind::Expected(what.to_owned()), position })
    }

    /// An error with message `msg` at `position`.
    pub fn custom(msg: &str, position: SourcePos) -> (e: Box<ParseError>)
        ensures
            is_custom(*e, msg@, position),
    {
        Box::new(ParseError { kind: ParseErrorKind::Custom(msg.to_owned()), position })
    }

    /// A copy of this error.
    pub fn duplicate(&self) -> (e: ParseError)
        ensures
            same_error(e, *self),
    {
        let kind = match &self.kind {
            ParseErrorKind::Expected(m) => ParseErrorKind::Expected(m.clone()),
            ParseErrorKind::UnexpectedEof => ParseErrorKind::UnexpectedEof,
            ParseErrorKind::Custom(m) => ParseErrorKind::Custom(m.clone()),
        };
        ParseError { kind, position: self.position }
    }
}

/// A warning attached to a span of the source.
#[derive(Debug, Clone)]
pub struct Diagnostic {
    pub message: String,
    pub span: Option<SourceRange>,
}

impl Diagnostic {
    /// A warning with the given message and no span yet.
    pub fn warning(message: String) -> (d: Diagnostic)
        ensures
            d.message@ == message@,
            d.span is None,
    {
        Diagnostic { message, span: None }
    }

    /// The same warning, attached to `span`.
    pub fn with_span(self, span: SourceRange) -> (d: Diagnostic)
        ensures
            d.message@ == self.message@,
            d.span == Some(span),
    {
        Diagnostic { message: self.message, span: Some(span) }
    }
}

} // verus!
