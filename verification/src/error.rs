//! Parse failures: what went wrong, where, and inside which stages of the
//! grammar.

use vstd::prelude::*;

verus! {

/// What went wrong.
#[derive(Debug, Clone, Copy, PartialEq, Eq, Structural)]
pub enum ErrorKind {
    /// None of the alternatives tried at a position matched.
    NoMatchingAlternative,
    /// A string ran into a control character or the end of the text before
    /// its closing quote.
    UnterminatedString,
    /// A backslash inside a string is not followed by a recognized escape.
    InvalidEscape,
    /// No number starts at the position.
    InvalidNumber,
    /// An array element is followed by neither `,` nor `]`.
    UnterminatedArray,
    /// An object member is followed by neither `,` nor `}`.
    UnterminatedObject,
    /// An object key is not followed by `:`.
    MissingColon,
}

/// A named stage of the grammar.
#[derive(Debug, Clone, Copy, PartialEq, Eq, Structural)]
pub enum Context {
    Json,
    Value,
    String,
    Num,
    Boolean,
    Null,
    Array,
    Object,
    Key,
}

/// The mathematical content of a [`ParseError`].
pub ghost struct Failure {
    pub kind: ErrorKind,
    /// Byte offset into the text at which matching failed.
    pub position: int,
    /// The stages that were being parsed, innermost first.
    pub contexts: Seq<Context>,
}

impl Failure {
    /// A failure of `kind` at `position`, met while parsing `context`.
    pub open spec fn at(kind: ErrorKind, position: int, context: Context) -> Failure {
        Failure { kind, position, contexts: seq![context] }
    }

    /// The same failure, seen from the enclosing stage `context`.
    pub open spec fn within(self, context: Context) -> Failure {
        Failure { contexts: self.contexts.push(context), ..self }
    }
}

/// A parse failure.
#[derive(Debug, Clone)]
pub struct ParseError {
    pub kind: ErrorKind,
    /// Byte offset into the text at which matching failed.
    pub position: usize,
    /// The stages that were being parsed, innermost first.
    pub contexts: Vec<Context>,
}

impl View for ParseError {
    type V = Failure;

    open spec fn view(&self) -> Failure {
        Failure { kind: self.kind, position: self.position as int, contexts: self.contexts@ }
    }
}

impl ParseError {
    /// A failure of `kind` at `position`, met while parsing `context`.
    pub fn new(kind: ErrorKind, position: usize, context: Context) -> (e: ParseError)
        ensures
            e@ == Failure::at(kind, position as int, context),
    {
        let mut contexts = Vec::new();
        contexts.push(context);
        ParseError { kind, position, contexts }
    }

    /// Records that the failure happened inside `context`.
    pub fn within(self, context: Context) -> (e: ParseError)
        ensures
            e@ == self@.within(context),
    {
        let mut contexts = self.contexts;
        contexts.push(context);
        ParseError { kind: self.kind, position: self.position, contexts }
    }
}

} // verus!
