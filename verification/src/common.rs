//! Error taxonomy of the pattern engine.
//!
//! Every stage fails fast at the first error and reports enough position or
//! name context to point the caller at the offending fragment.  The matcher
//! itself cannot fail: a compiled automaton either accepts or rejects.

use vstd::prelude::*;

verus! {

/// What went wrong while turning pattern text into atoms.
#[derive(Debug, Clone, Copy, PartialEq, Eq, Structural)]
pub enum LexErrorKind {
    /// A bare `\` stands at the end of the pattern.
    UnterminatedEscape,
    /// `\c` for a character `c` that is no recognised escape.
    UnknownEscape,
    /// A `\x` form that does not denote a Unicode scalar value.
    InvalidUnicodeScalar,
    /// A `{...}` bound that is not two optional decimals with `min <= max`,
    /// or one that is never closed.
    MalformedRepetitionBound,
    /// A `[...]` bracket expression that is never closed.
    UnterminatedBracket,
    /// `\p{...}` or `#{...}` without a closing `}`.
    UnterminatedNamedGroup,
}

/// A tokenizer failure.  `position` is the character index of the offending
/// character; for an unterminated construct it is the index of the
/// construct's opening marker.
#[derive(Debug, Clone, Copy, PartialEq, Eq, Structural)]
pub struct LexError {
    pub kind: LexErrorKind,
    pub position: usize,
}

/// What went wrong while shaping atoms into a syntax tree.
#[derive(Debug, Clone, Copy, PartialEq, Eq, Structural)]
pub enum ParseErrorKind {
    /// An atom that cannot start or continue the construct being parsed,
    /// including a bracket range whose ends are out of order.
    UnexpectedToken,
    /// The atom sequence ended where an atom was required.
    UnexpectedEnd,
    /// A concatenation of zero atoms, as in `()` or a trailing `|`.
    EmptyConcatenation,
    /// A `(` whose matching `)` is missing.
    UnclosedGroup,
}

/// A parser failure.  `position` is the index of the offending atom in the
/// atom sequence handed to the parser.
#[derive(Debug, Clone, Copy, PartialEq, Eq, Structural)]
pub struct ParseError {
    pub kind: ParseErrorKind,
    pub position: usize,
}

/// What went wrong while substituting variables into a syntax tree.
#[derive(Debug, Clone, Copy, PartialEq, Eq, Structural)]
pub enum ResolveErrorKind {
    /// A variable name absent from the supplied environment.
    UnknownVariable,
    /// A variable defined, directly or transitively, in terms of itself.
    CyclicVariable,
}

/// A resolver failure, carrying the offending variable name.
#[derive(Debug, PartialEq, Eq)]
pub struct ResolveError {
    pub kind: ResolveErrorKind,
    pub name: String,
}

/// What went wrong while compiling a resolved syntax tree to an automaton.
#[derive(Debug, Clone, Copy, PartialEq, Eq, Structural)]
pub enum CompileErrorKind {
    /// A `\p{name}` class absent from the supplied registry.
    UnknownCharClass,
    /// A repetition bound beyond the configured expansion cap.
    RepetitionTooLarge,
    /// Nesting beyond the configured depth limit.
    PatternTooDeeplyNested,
}

/// A compiler failure; `detail` names the offending fragment where one has a
/// name (the unknown class), and is empty otherwise.
#[derive(Debug, PartialEq, Eq)]
pub struct CompileError {
    pub kind: CompileErrorKind,
    pub detail: String,
}

/// The error of any stage of the engine.
#[derive(Debug, PartialEq, Eq)]
pub enum TsegerError {
    LexerError(LexError),
    ParserError(ParseError),
    ResolverError(ResolveError),
    DFAError(CompileError),
}

} // verus!
