//! Tokenizer: turns pattern text into a positioned atom sequence.
//!
//! Structural characters map to fixed atoms; escapes cover metacharacters,
//! whitespace, Unicode scalar literals `\xHH..` and ranges `\x{H..,H..}`,
//! character classes `\p{name}` and variables `#{name}`; `{m,n}` forms a
//! repetition bound and `[...]` a bracket expression.  The whole behaviour
//! of `Lexer::lex` is pinned by the specification function `lex_spec`.

use vstd::prelude::*;
use vstd::string::StrSliceExecFns;

use crate::common::LexError;
use crate::common::LexErrorKind;
use crate::common::TsegerError;

verus! {

/// One atom of the pattern language, as produced by the tokenizer.
#[derive(Debug, PartialEq, Eq, Hash)]
pub enum RegexAtom {
    /// A single concrete character, bare or escaped or `\xHH..`.
    Literal(char),
    /// An inclusive character range, from `a-z` items or `\x{..,..}`.
    Range(char, char),
    /// `.`
    QuantWildcard,
    /// `?`
    QuantOptional,
    /// `*`
    QuantKleene,
    /// `+`
    QuantPlus,
    /// `|`
    Or,
    /// `(`
    LParen,
    /// `)`
    RParen,
    /// `[...]`, optionally negated by a leading `^`.
    BracketExpressions { negated: bool, ranges: Vec<BracketExpression> },
    /// `{min,max}` with either bound optional; `{n}` fixes both to `n`.
    Repetition(Option<u32>, Option<u32>),
    /// A raw or escaped whitespace character.
    Whitespace(WhitespaceKind),
    /// `\p{name}`
    CharClass(String),
    /// `#{name}`
    Variable(String),
    /// Never produced by the tokenizer; kept so downstream consumers can
    /// represent an explicit end marker.
    EOF,
}

/// An atom together with the character span it was read from.
pub type PositionedAtom = (RegexAtom, Position);

/// One item of a bracket expression: a single character or an `a-z` range.
#[derive(Debug, PartialEq, Eq, Hash)]
pub enum BracketExpression {
    Single(PositionedAtom),
    Ranged(PositionedAtom),
}

/// Which whitespace character an atom stands for.
#[derive(Debug, PartialEq, Eq, Hash, Clone, Copy)]
pub enum WhitespaceKind {
    NewLine,
    Tab,
    CR,
    Space,
}

/// An inclusive span of character indices into the pattern text.
#[derive(Debug, PartialEq, Eq, Hash, Clone, Copy, Structural)]
pub struct Position {
    pub start: usize,
    pub end: usize,
}

/// The mathematical model of an atom: names become character sequences,
/// bracket items a sequence of model items.
pub enum SpecAtom {
    Literal(char),
    Range(char, char),
    QuantWildcard,
    QuantOptional,
    QuantKleene,
    QuantPlus,
    Or,
    LParen,
    RParen,
    BracketExpressions { negated: bool, ranges: Seq<SpecBracket> },
    Repetition(Option<u32>, Option<u32>),
    Whitespace(WhitespaceKind),
    CharClass(Seq<char>),
    Variable(Seq<char>),
    EOF,
}

/// The mathematical model of one bracket item.
pub enum SpecBracket {
    Single((SpecAtom, Position)),
    Ranged((SpecAtom, Position)),
}

impl View for RegexAtom {
    type V = SpecAtom;

    open spec fn view(&self) -> SpecAtom
        decreases self,
    {
        match self {
            RegexAtom::Literal(c) => SpecAtom::Literal(*c),
            RegexAtom::Range(a, b) => SpecAtom::Range(*a, *b),
            RegexAtom::QuantWildcard => SpecAtom::QuantWildcard,
            RegexAtom::QuantOptional => SpecAtom::QuantOptional,
            RegexAtom::QuantKleene => SpecAtom::QuantKleene,
            RegexAtom::QuantPlus => SpecAtom::QuantPlus,
            RegexAtom::Or => SpecAtom::Or,
            RegexAtom::LParen => SpecAtom::LParen,
            RegexAtom::RParen => SpecAtom::RParen,
            RegexAtom::BracketExpressions { negated, ranges } => SpecAtom::BracketExpressions {
                negated: *negated,
                ranges: view_brackets(ranges@),
            },
            RegexAtom::Repetition(mn, mx) => SpecAtom::Repetition(*mn, *mx),
            RegexAtom::Whitespace(k) => SpecAtom::Whitespace(*k),
            RegexAtom::CharClass(name) => SpecAtom::CharClass(name@),
            RegexAtom::Variable(name) => SpecAtom::Variable(name@),
            RegexAtom::EOF => SpecAtom::EOF,
        }
    }
}

/// The element-wise model of a sequence of bracket items.
pub open spec fn view_brackets(v: Seq<BracketExpression>) -> Seq<SpecBracket>
    decreases v,
{
    if v.len() == 0 {
        Seq::empty()
    } else {
        seq![v[0]@] + view_brackets(v.drop_first())
    }
}

impl View for BracketExpression {
    type V = SpecBracket;

    open spec fn view(&self) -> SpecBracket
        decreases self,
    {
        match self {
            BracketExpression::Single(pa) => SpecBracket::Single((pa.0@, pa.1)),
            BracketExpression::Ranged(pa) => SpecBracket::Ranged((pa.0@, pa.1)),
        }
    }
}

/// `view_brackets` maps the sequence element by element.
pub proof fn lemma_view_brackets(v: Seq<BracketExpression>)
    ensures
        view_brackets(v).len() == v.len(),
        forall|i: int| 0 <= i < v.len() ==> #[trigger] view_brackets(v)[i] == v[i]@,
    decreases v.len(),
{
    if v.len() > 0 {
        lemma_view_brackets(v.drop_first());
        assert(view_brackets(v) == seq![v[0]@] + view_brackets(v.drop_first()));
        assert forall|i: int| 0 <= i < v.len() implies #[trigger] view_brackets(v)[i] == v[i]@ by {
            if i > 0 {
                assert(view_brackets(v)[i] == view_brackets(v.drop_first())[i - 1]);
                assert(v.drop_first()[i - 1] == v[i]);
            }
        }
    }
}

/// Appending an item commutes with taking the model of a bracket sequence.
pub proof fn lemma_view_brackets_push(v: Seq<BracketExpression>, x: BracketExpression)
    ensures
        view_brackets(v.push(x)) == view_brackets(v).push(x@),
{
    lemma_view_brackets(v);
    lemma_view_brackets(v.push(x));
    assert(view_brackets(v.push(x)) =~= view_brackets(v).push(x@));
}

/// The element-wise model of a positioned atom sequence.
pub open spec fn atoms_view(v: Seq<(RegexAtom, Position)>) -> Seq<(SpecAtom, Position)> {
    v.map_values(|pa: (RegexAtom, Position)| (pa.0@, pa.1))
}

/// Appending an atom commutes with taking the model of an atom sequence.
pub proof fn lemma_atoms_view_push(v: Seq<(RegexAtom, Position)>, x: (RegexAtom, Position))
    ensures
        atoms_view(v.push(x)) == atoms_view(v) + one_atom(x.0@, x.1),
{
    assert(atoms_view(v.push(x)) =~= atoms_view(v) + one_atom(x.0@, x.1));
}

/// The span `[i, j]`, as stored in an atom.
pub open spec fn lex_pos(i: int, j: int) -> Position {
    Position { start: i as usize, end: j as usize }
}

/// A tokenizer error of kind `k` at character index `at`.
pub open spec fn lex_err(k: LexErrorKind, at: int) -> LexError {
    LexError { kind: k, position: at as usize }
}

/// A single-item bracket entry for the character at index `i`.
pub open spec fn bracket_single(c: char, i: int) -> SpecBracket {
    SpecBracket::Single((SpecAtom::Literal(c), lex_pos(i, i)))
}

/// A ranged bracket entry `lo-hi` spanning indices `i` to `i + 2`.
pub open spec fn bracket_ranged(lo: char, hi: char, i: int) -> SpecBracket {
    SpecBracket::Ranged((SpecAtom::Range(lo, hi), lex_pos(i, i + 2)))
}

/// A one-atom sequence, as prefixed onto the rest of a tokenization.
pub open spec fn one_atom(a: SpecAtom, p: Position) -> Seq<(SpecAtom, Position)> {
    seq![(a, p)]
}

/// Is `c` a decimal digit?
pub open spec fn is_dec_digit(c: char) -> bool {
    '0' <= c && c <= '9'
}

/// The value of a decimal digit.
pub open spec fn dec_val(c: char) -> int {
    c as u32 - 0x30
}

/// Is `c` a hexadecimal digit?
pub open spec fn is_hex_digit(c: char) -> bool {
    ('0' <= c && c <= '9') || ('a' <= c && c <= 'f') || ('A' <= c && c <= 'F')
}

/// The value of a hexadecimal digit.
pub open spec fn hex_val(c: char) -> int {
    if '0' <= c && c <= '9' {
        c as u32 - 0x30
    } else if 'a' <= c && c <= 'f' {
        c as u32 - 0x57
    } else {
        c as u32 - 0x37
    }
}

/// Is `v` a Unicode scalar value (in range and not a surrogate)?
pub open spec fn is_valid_scalar(v: int) -> bool {
    0 <= v <= 0x10FFFF && !(0xD800 <= v <= 0xDFFF)
}

/// The character that `char::from_u32` returns on the scalar value `v`.
pub uninterp spec fn char_of_scalar(v: u32) -> char;

/// Is `c` a character that `\c` turns into a literal?
pub open spec fn is_metachar(c: char) -> bool {
    c == '(' || c == ')' || c == '{' || c == '}' || c == '[' || c == ']' || c == '.' || c == '*'
        || c == '?' || c == '+' || c == '^' || c == '|' || c == '\\' || c == '#'
}

/// The zero default of an optional accumulator.
pub open spec fn opt_or_zero(o: Option<u32>) -> int {
    match o {
        Option::None => 0,
        Option::Some(v) => v as int,
    }
}

/// The atom of a single structural or whitespace character, if `c` is one.
pub open spec fn simple_atom(c: char) -> Option<SpecAtom> {
    if c == '(' {
        Option::Some(SpecAtom::LParen)
    } else if c == ')' {
        Option::Some(SpecAtom::RParen)
    } else if c == '.' {
        Option::Some(SpecAtom::QuantWildcard)
    } else if c == '*' {
        Option::Some(SpecAtom::QuantKleene)
    } else if c == '?' {
        Option::Some(SpecAtom::QuantOptional)
    } else if c == '+' {
        Option::Some(SpecAtom::QuantPlus)
    } else if c == '|' {
        Option::Some(SpecAtom::Or)
    } else if c == ' ' {
        Option::Some(SpecAtom::Whitespace(WhitespaceKind::Space))
    } else if c == '\n' {
        Option::Some(SpecAtom::Whitespace(WhitespaceKind::NewLine))
    } else if c == '\t' {
        Option::Some(SpecAtom::Whitespace(WhitespaceKind::Tab))
    } else if c == '\r' {
        Option::Some(SpecAtom::Whitespace(WhitespaceKind::CR))
    } else {
        Option::None
    }
}

/// Prefix `done` onto a tokenization tail, passing an error through.
pub open spec fn lex_join(
    done: Seq<(SpecAtom, Position)>,
    r: Result<Seq<(SpecAtom, Position)>, LexError>,
) -> Result<Seq<(SpecAtom, Position)>, LexError> {
    match r {
        Result::Ok(rest) => Result::Ok(done + rest),
        Result::Err(e) => Result::Err(e),
    }
}

/// Scan of a repetition bound after `{` at `open`: digits into the first or
/// second accumulator, one comma switching between them, `}` closing.
/// Without a comma, `{n}` means exactly `n`.  Both bounds present must be
/// ordered.
pub open spec fn spec_rep_scan(
    s: Seq<char>,
    i: int,
    first: bool,
    mn: Option<u32>,
    mx: Option<u32>,
    open: int,
) -> Result<((SpecAtom, Position), int), LexError>
    decreases s.len() - i,
{
    if i < 0 || i >= s.len() {
        Result::Err(lex_err(LexErrorKind::MalformedRepetitionBound, open))
    } else {
        let c = s[i];
        if is_dec_digit(c) {
            if first {
                let v = opt_or_zero(mn) * 10 + dec_val(c);
                if v > u32::MAX {
                    Result::Err(lex_err(LexErrorKind::MalformedRepetitionBound, i))
                } else {
                    spec_rep_scan(s, i + 1, first, Option::Some(v as u32), mx, open)
                }
            } else {
                let v = opt_or_zero(mx) * 10 + dec_val(c);
                if v > u32::MAX {
                    Result::Err(lex_err(LexErrorKind::MalformedRepetitionBound, i))
                } else {
                    spec_rep_scan(s, i + 1, first, mn, Option::Some(v as u32), open)
                }
            }
        } else if c == ',' {
            if first {
                spec_rep_scan(s, i + 1, false, mn, mx, open)
            } else {
                Result::Err(lex_err(LexErrorKind::MalformedRepetitionBound, i))
            }
        } else if c == '}' {
            let bmn = mn;
            let bmx = if first {
                mn
            } else {
                mx
            };
            if bmn matches Option::Some(a) && bmx matches Option::Some(b) && a > b {
                Result::Err(lex_err(LexErrorKind::MalformedRepetitionBound, i))
            } else {
                Result::Ok(((SpecAtom::Repetition(bmn, bmx), lex_pos(open, i)), i + 1))
            }
        } else {
            Result::Err(lex_err(LexErrorKind::MalformedRepetitionBound, i))
        }
    }
}

/// A `{...}` repetition bound opening at `open`.
pub open spec fn spec_lex_repetitions(s: Seq<char>, open: int) -> Result<
    ((SpecAtom, Position), int),
    LexError,
> {
    if open + 1 >= s.len() {
        Result::Err(lex_err(LexErrorKind::MalformedRepetitionBound, open))
    } else {
        spec_rep_scan(s, open + 1, true, Option::None, Option::None, open)
    }
}

/// Scan of bracket items after `[` (and optional `^`) at `open`: a `-`
/// after an item character forms a range with the character that follows,
/// whatever it is; `]` closes.
pub open spec fn spec_bracket_scan(
    s: Seq<char>,
    i: int,
    neg: bool,
    items: Seq<SpecBracket>,
    open: int,
) -> Result<((SpecAtom, Position), int), LexError>
    decreases s.len() - i,
{
    if i < 0 || i >= s.len() {
        Result::Err(lex_err(LexErrorKind::UnterminatedBracket, open))
    } else if s[i] == ']' {
        Result::Ok(
            ((SpecAtom::BracketExpressions { negated: neg, ranges: items }, lex_pos(open, i)), i + 1),
        )
    } else if i + 1 >= s.len() {
        Result::Err(lex_err(LexErrorKind::UnterminatedBracket, open))
    } else if s[i + 1] == '-' {
        if i + 2 >= s.len() {
            Result::Err(lex_err(LexErrorKind::UnterminatedBracket, open))
        } else {
            spec_bracket_scan(s, i + 3, neg, items.push(bracket_ranged(s[i], s[i + 2], i)), open)
        }
    } else {
        spec_bracket_scan(s, i + 1, neg, items.push(bracket_single(s[i], i)), open)
    }
}

/// A `[...]` bracket expression opening at `open`, with an optional leading
/// `^` marking negation.
pub open spec fn spec_lex_bracket(s: Seq<char>, open: int) -> Result<
    ((SpecAtom, Position), int),
    LexError,
> {
    if open + 1 >= s.len() {
        Result::Err(lex_err(LexErrorKind::UnterminatedBracket, open))
    } else if s[open + 1] == '^' {
        spec_bracket_scan(s, open + 2, true, Seq::empty(), open)
    } else {
        spec_bracket_scan(s, open + 1, false, Seq::empty(), open)
    }
}

/// Scan of a `\p{...}` or `#{...}` name up to the closing `}`; any
/// character but `}` belongs to the name.
pub open spec fn spec_name_scan(
    s: Seq<char>,
    i: int,
    acc: Seq<char>,
    marker: int,
    variable: bool,
) -> Result<((SpecAtom, Position), int), LexError>
    decreases s.len() - i,
{
    if i < 0 || i >= s.len() {
        Result::Err(lex_err(LexErrorKind::UnterminatedNamedGroup, marker))
    } else if s[i] == '}' {
        let atom = if variable {
            SpecAtom::Variable(acc)
        } else {
            SpecAtom::CharClass(acc)
        };
        Result::Ok(((atom, lex_pos(marker, i)), i + 1))
    } else {
        spec_name_scan(s, i + 1, acc.push(s[i]), marker, variable)
    }
}

/// A `#{name}` variable opening at `hash`.
pub open spec fn spec_lex_variable(s: Seq<char>, hash: int) -> Result<
    ((SpecAtom, Position), int),
    LexError,
> {
    if hash + 1 >= s.len() {
        Result::Err(lex_err(LexErrorKind::UnterminatedNamedGroup, hash))
    } else if s[hash + 1] != '{' {
        Result::Err(lex_err(LexErrorKind::UnterminatedNamedGroup, hash + 1))
    } else {
        spec_name_scan(s, hash + 2, Seq::empty(), hash, true)
    }
}

/// A `\p{name}` character class whose backslash stands at `bs`.
pub open spec fn spec_lex_class(s: Seq<char>, bs: int) -> Result<
    ((SpecAtom, Position), int),
    LexError,
> {
    if bs + 2 >= s.len() {
        Result::Err(lex_err(LexErrorKind::UnterminatedNamedGroup, bs))
    } else if s[bs + 2] != '{' {
        Result::Err(lex_err(LexErrorKind::UnterminatedNamedGroup, bs + 2))
    } else {
        spec_name_scan(s, bs + 3, Seq::empty(), bs, false)
    }
}

/// Scan of the hexadecimal digit run of `\xHH..` whose backslash stands at
/// `bs`; the run ends at the first non-hex character, and its value must be
/// a Unicode scalar.
pub open spec fn spec_hex_scan(s: Seq<char>, i: int, acc: int, bs: int) -> Result<
    ((SpecAtom, Position), int),
    LexError,
>
    decreases s.len() - i,
{
    if 0 <= i < s.len() && is_hex_digit(s[i]) {
        let v = acc * 16 + hex_val(s[i]);
        if v > u32::MAX {
            Result::Err(lex_err(LexErrorKind::InvalidUnicodeScalar, i))
        } else {
            spec_hex_scan(s, i + 1, v, bs)
        }
    } else {
        if is_valid_scalar(acc) {
            Result::Ok(((SpecAtom::Literal(char_of_scalar(acc as u32)), lex_pos(bs, i - 1)), i))
        } else {
            Result::Err(lex_err(LexErrorKind::InvalidUnicodeScalar, i - 1))
        }
    }
}

/// Scan of `\x{H..,H..}` whose backslash stands at `bs`: two hexadecimal
/// runs separated by one comma, both Unicode scalars, closed by `}`.
pub open spec fn spec_urange_scan(
    s: Seq<char>,
    i: int,
    seen_comma: bool,
    a1: Option<u32>,
    a2: Option<u32>,
    bs: int,
) -> Result<((SpecAtom, Position), int), LexError>
    decreases s.len() - i,
{
    if i < 0 || i >= s.len() {
        Result::Err(lex_err(LexErrorKind::InvalidUnicodeScalar, bs))
    } else {
        let c = s[i];
        if c == ',' {
            if seen_comma {
                Result::Err(lex_err(LexErrorKind::InvalidUnicodeScalar, i))
            } else {
                spec_urange_scan(s, i + 1, true, a1, a2, bs)
            }
        } else if is_hex_digit(c) {
            if !seen_comma {
                let v = opt_or_zero(a1) * 16 + hex_val(c);
                if v > u32::MAX {
                    Result::Err(lex_err(LexErrorKind::InvalidUnicodeScalar, i))
                } else {
                    spec_urange_scan(s, i + 1, seen_comma, Option::Some(v as u32), a2, bs)
                }
            } else {
                let v = opt_or_zero(a2) * 16 + hex_val(c);
                if v > u32::MAX {
                    Result::Err(lex_err(LexErrorKind::InvalidUnicodeScalar, i))
                } else {
                    spec_urange_scan(s, i + 1, seen_comma, a1, Option::Some(v as u32), bs)
                }
            }
        } else if c == '}' {
            match (a1, a2) {
                (Option::Some(v1), Option::Some(v2)) => {
                    if seen_comma && is_valid_scalar(v1 as int) && is_valid_scalar(v2 as int) {
                        Result::Ok(
                            (
                                (
                                    SpecAtom::Range(char_of_scalar(v1), char_of_scalar(v2)),
                                    lex_pos(bs, i),
                                ),
                                i + 1,
                            ),
                        )
                    } else {
                        Result::Err(lex_err(LexErrorKind::InvalidUnicodeScalar, i))
                    }
                },
                _ => Result::Err(lex_err(LexErrorKind::InvalidUnicodeScalar, i)),
            }
        } else {
            Result::Err(lex_err(LexErrorKind::InvalidUnicodeScalar, i))
        }
    }
}

/// A `\x` form whose backslash stands at `bs`: a hexadecimal digit starts a
/// scalar literal, `{` starts a scalar range.
pub open spec fn spec_lex_unicode(s: Seq<char>, bs: int) -> Result<
    ((SpecAtom, Position), int),
    LexError,
> {
    if bs + 2 >= s.len() {
        Result::Err(lex_err(LexErrorKind::InvalidUnicodeScalar, bs))
    } else if is_hex_digit(s[bs + 2]) {
        spec_hex_scan(s, bs + 3, hex_val(s[bs + 2]), bs)
    } else if s[bs + 2] == '{' {
        spec_urange_scan(s, bs + 3, false, Option::None, Option::None, bs)
    } else {
        Result::Err(lex_err(LexErrorKind::InvalidUnicodeScalar, bs + 2))
    }
}

/// An escape whose backslash stands at `bs`: metacharacters become
/// literals, `n`/`r`/`t` whitespace, `x` a Unicode form, `p` a class.
pub open spec fn spec_lex_escape(s: Seq<char>, bs: int) -> Result<
    ((SpecAtom, Position), int),
    LexError,
> {
    if bs + 1 >= s.len() {
        Result::Err(lex_err(LexErrorKind::UnterminatedEscape, bs))
    } else {
        let c = s[bs + 1];
        if is_metachar(c) {
            Result::Ok(((SpecAtom::Literal(c), lex_pos(bs, bs + 1)), bs + 2))
        } else if c == 'n' {
            Result::Ok(((SpecAtom::Whitespace(WhitespaceKind::NewLine), lex_pos(bs, bs + 1)), bs + 2))
        } else if c == 'r' {
            Result::Ok(((SpecAtom::Whitespace(WhitespaceKind::CR), lex_pos(bs, bs + 1)), bs + 2))
        } else if c == 't' {
            Result::Ok(((SpecAtom::Whitespace(WhitespaceKind::Tab), lex_pos(bs, bs + 1)), bs + 2))
        } else if c == 'x' {
            spec_lex_unicode(s, bs)
        } else if c == 'p' {
            spec_lex_class(s, bs)
        } else {
            Result::Err(lex_err(LexErrorKind::UnknownEscape, bs + 1))
        }
    }
}

/// The atoms of the pattern text from index `i` on.
pub open spec fn lex_rest(s: Seq<char>, i: int) -> Result<Seq<(SpecAtom, Position)>, LexError>
    decreases s.len() - i,
{
    if i < 0 || i >= s.len() {
        Result::Ok(Seq::empty())
    } else {
        let c = s[i];
        match simple_atom(c) {
            Option::Some(a) => lex_join(one_atom(a, lex_pos(i, i)), lex_rest(s, i + 1)),
            Option::None => {
                if c == '{' {
                    match spec_lex_repetitions(s, i) {
                        Result::Ok((ap, j)) => if i < j && j <= s.len() {
                            lex_join(one_atom(ap.0, ap.1), lex_rest(s, j))
                        } else {
                            Result::Err(lex_err(LexErrorKind::MalformedRepetitionBound, i))
                        },
                        Result::Err(e) => Result::Err(e),
                    }
                } else if c == '[' {
                    match spec_lex_bracket(s, i) {
                        Result::Ok((ap, j)) => if i < j && j <= s.len() {
                            lex_join(one_atom(ap.0, ap.1), lex_rest(s, j))
                        } else {
                            Result::Err(lex_err(LexErrorKind::UnterminatedBracket, i))
                        },
                        Result::Err(e) => Result::Err(e),
                    }
                } else if c == '#' {
                    match spec_lex_variable(s, i) {
                        Result::Ok((ap, j)) => if i < j && j <= s.len() {
                            lex_join(one_atom(ap.0, ap.1), lex_rest(s, j))
                        } else {
                            Result::Err(lex_err(LexErrorKind::UnterminatedNamedGroup, i))
                        },
                        Result::Err(e) => Result::Err(e),
                    }
                } else if c == '\\' {
                    match spec_lex_escape(s, i) {
                        Result::Ok((ap, j)) => if i < j && j <= s.len() {
                            lex_join(one_atom(ap.0, ap.1), lex_rest(s, j))
                        } else {
                            Result::Err(lex_err(LexErrorKind::UnterminatedEscape, i))
                        },
                        Result::Err(e) => Result::Err(e),
                    }
                } else {
                    lex_join(one_atom(SpecAtom::Literal(c), lex_pos(i, i)), lex_rest(s, i + 1))
                }
            },
        }
    }
}

/// The full tokenization of a pattern text: its atom sequence, or the
/// first tokenizer error.
pub open spec fn lex_spec(s: Seq<char>) -> Result<Seq<(SpecAtom, Position)>, LexError> {
    lex_rest(s, 0)
}

/// Does the executable outcome of a sub-tokenizer agree with its model?
pub open spec fn lexed_item_matches(
    r: Result<(PositionedAtom, usize), LexError>,
    m: Result<((SpecAtom, Position), int), LexError>,
) -> bool {
    match (r, m) {
        (Result::Ok((pa, j)), Result::Ok((map, mj))) => pa.0@ == map.0 && pa.1 == map.1 && j == mj,
        (Result::Err(e), Result::Err(me)) => e == me,
        _ => false,
    }
}

/// Prefixing distributes over a nested `lex_join`.
proof fn lemma_join_assoc(
    done: Seq<(SpecAtom, Position)>,
    one: Seq<(SpecAtom, Position)>,
    r: Result<Seq<(SpecAtom, Position)>, LexError>,
)
    ensures
        lex_join(done, lex_join(one, r)) == lex_join(done + one, r),
{
    match r {
        Result::Ok(rest) => {
            assert(done + (one + rest) =~= (done + one) + rest);
        },
        Result::Err(_) => {},
    }
}

proof fn lemma_rep_scan_bounds(
    s: Seq<char>,
    i: int,
    first: bool,
    mn: Option<u32>,
    mx: Option<u32>,
    open: int,
)
    requires
        0 <= i,
    ensures
        match spec_rep_scan(s, i, first, mn, mx, open) {
            Result::Ok((_, j)) => i < j <= s.len(),
            Result::Err(_) => true,
        },
    decreases s.len() - i,
{
    if 0 <= i < s.len() {
        let c = s[i];
        if is_dec_digit(c) {
            if first {
                let v = opt_or_zero(mn) * 10 + dec_val(c);
                if v <= u32::MAX {
                    lemma_rep_scan_bounds(s, i + 1, first, Option::Some(v as u32), mx, open);
                }
            } else {
                let v = opt_or_zero(mx) * 10 + dec_val(c);
                if v <= u32::MAX {
                    lemma_rep_scan_bounds(s, i + 1, first, mn, Option::Some(v as u32), open);
                }
            }
        } else if c == ',' {
            if first {
                lemma_rep_scan_bounds(s, i + 1, false, mn, mx, open);
            }
        }
    }
}

proof fn lemma_lex_repetitions_bounds(s: Seq<char>, open: int)
    requires
        0 <= open,
    ensures
        match spec_lex_repetitions(s, open) {
            Result::Ok((_, j)) => open < j <= s.len(),
            Result::Err(_) => true,
        },
{
    if open + 1 < s.len() {
        lemma_rep_scan_bounds(s, open + 1, true, Option::None, Option::None, open);
    }
}

proof fn lemma_bracket_scan_bounds(
    s: Seq<char>,
    i: int,
    neg: bool,
    items: Seq<SpecBracket>,
    open: int,
)
    requires
        0 <= i,
    ensures
        match spec_bracket_scan(s, i, neg, items, open) {
            Result::Ok((_, j)) => i < j <= s.len(),
            Result::Err(_) => true,
        },
    decreases s.len() - i,
{
    if i >= s.len() {
        assert(spec_bracket_scan(s, i, neg, items, open) is Err);
    } else if s[i] == ']' {
        assert(spec_bracket_scan(s, i, neg, items, open) matches Result::Ok((_, j)) && j == i + 1);
    } else if i + 1 >= s.len() {
        assert(spec_bracket_scan(s, i, neg, items, open) is Err);
    } else if s[i + 1] == '-' {
        if i + 2 >= s.len() {
            assert(spec_bracket_scan(s, i, neg, items, open) is Err);
        } else {
            lemma_bracket_scan_bounds(s, i + 3, neg, items.push(bracket_ranged(s[i], s[i + 2], i)), open);
        }
    } else {
        lemma_bracket_scan_bounds(s, i + 1, neg, items.push(bracket_single(s[i], i)), open);
    }
}

proof fn lemma_lex_bracket_bounds(s: Seq<char>, open: int)
    requires
        0 <= open,
    ensures
        match spec_lex_bracket(s, open) {
            Result::Ok((_, j)) => open < j <= s.len(),
            Result::Err(_) => true,
        },
{
    if open + 1 < s.len() {
        if s[open + 1] == '^' {
            lemma_bracket_scan_bounds(s, open + 2, true, Seq::empty(), open);
        } else {
            lemma_bracket_scan_bounds(s, open + 1, false, Seq::empty(), open);
        }
    }
}

proof fn lemma_name_scan_bounds(s: Seq<char>, i: int, acc: Seq<char>, marker: int, variable: bool)
    requires
        0 <= i,
    ensures
        match spec_name_scan(s, i, acc, marker, variable) {
            Result::Ok((_, j)) => i < j <= s.len(),
            Result::Err(_) => true,
        },
    decreases s.len() - i,
{
    if 0 <= i < s.len() && s[i] != '}' {
        lemma_name_scan_bounds(s, i + 1, acc.push(s[i]), marker, variable);
    }
}

proof fn lemma_lex_variable_bounds(s: Seq<char>, hash: int)
    requires
        0 <= hash,
    ensures
        match spec_lex_variable(s, hash) {
            Result::Ok((_, j)) => hash < j <= s.len(),
            Result::Err(_) => true,
        },
{
    if hash + 1 < s.len() && s[hash + 1] == '{' {
        lemma_name_scan_bounds(s, hash + 2, Seq::empty(), hash, true);
    }
}

proof fn lemma_hex_scan_bounds(s: Seq<char>, i: int, acc: int, bs: int)
    requires
        0 <= i <= s.len(),
    ensures
        match spec_hex_scan(s, i, acc, bs) {
            Result::Ok((_, j)) => i <= j <= s.len(),
            Result::Err(_) => true,
        },
    decreases s.len() - i,
{
    if 0 <= i < s.len() && is_hex_digit(s[i]) {
        let v = acc * 16 + hex_val(s[i]);
        if v <= u32::MAX {
            lemma_hex_scan_bounds(s, i + 1, v, bs);
        }
    }
}

proof fn lemma_urange_scan_bounds(
    s: Seq<char>,
    i: int,
    seen_comma: bool,
    a1: Option<u32>,
    a2: Option<u32>,
    bs: int,
)
    requires
        0 <= i,
    ensures
        match spec_urange_scan(s, i, seen_comma, a1, a2, bs) {
            Result::Ok((_, j)) => i < j <= s.len(),
            Result::Err(_) => true,
        },
    decreases s.len() - i,
{
    if 0 <= i < s.len() {
        let c = s[i];
        if c == ',' {
            if !seen_comma {
                lemma_urange_scan_bounds(s, i + 1, true, a1, a2, bs);
            }
        } else if is_hex_digit(c) {
            if !seen_comma {
                let v = opt_or_zero(a1) * 16 + hex_val(c);
                if v <= u32::MAX {
                    lemma_urange_scan_bounds(s, i + 1, seen_comma, Option::Some(v as u32), a2, bs);
                }
            } else {
                let v = opt_or_zero(a2) * 16 + hex_val(c);
                if v <= u32::MAX {
                    lemma_urange_scan_bounds(s, i + 1, seen_comma, a1, Option::Some(v as u32), bs);
                }
            }
        }
    }
}

proof fn lemma_lex_unicode_bounds(s: Seq<char>, bs: int)
    requires
        0 <= bs,
    ensures
        match spec_lex_unicode(s, bs) {
            Result::Ok((_, j)) => bs < j <= s.len(),
            Result::Err(_) => true,
        },
{
    if bs + 2 < s.len() {
        if is_hex_digit(s[bs + 2]) {
            lemma_hex_scan_bounds(s, bs + 3, hex_val(s[bs + 2]), bs);
        } else if s[bs + 2] == '{' {
            lemma_urange_scan_bounds(s, bs + 3, false, Option::None, Option::None, bs);
        }
    }
}

proof fn lemma_lex_class_bounds(s: Seq<char>, bs: int)
    requires
        0 <= bs,
    ensures
        match spec_lex_class(s, bs) {
            Result::Ok((_, j)) => bs < j <= s.len(),
            Result::Err(_) => true,
        },
{
    if bs + 2 < s.len() && s[bs + 2] == '{' {
        lemma_name_scan_bounds(s, bs + 3, Seq::empty(), bs, false);
    }
}

proof fn lemma_lex_escape_bounds(s: Seq<char>, bs: int)
    requires
        0 <= bs,
    ensures
        match spec_lex_escape(s, bs) {
            Result::Ok((_, j)) => bs < j <= s.len(),
            Result::Err(_) => true,
        },
{
    lemma_lex_unicode_bounds(s, bs);
    lemma_lex_class_bounds(s, bs);
}

/// Relies on char::from_u32: it returns `Some` exactly on Unicode scalar
/// values (at most 0x10FFFF and not a surrogate), and the returned
/// character, here named `char_of_scalar`, has the given code.
pub assume_specification[ char::from_u32 ](v: u32) -> (r: Option<char>)
    ensures
        r is Some <==> is_valid_scalar(v as int),
        match r {
            Option::Some(c) => c == char_of_scalar(v) && c as u32 == v,
            Option::None => true,
        },
;

/// Relies on String::push: it appends the given character to the end of
/// the string.
#[verifier::external_body]
fn push_char(s: &mut String, c: char)
    ensures
        final(s)@ == old(s)@.push(c),
{
    s.push(c);
}

/// The character of a scalar value, tied to the model's `char_of_scalar`.
fn scalar_char(v: u32) -> (r: Option<char>)
    ensures
        match r {
            Option::Some(c) => is_valid_scalar(v as int) && c == char_of_scalar(v),
            Option::None => !is_valid_scalar(v as int),
        },
{
    char::from_u32(v)
}

fn ch_is_dec(c: char) -> (r: bool)
    ensures
        r == is_dec_digit(c),
{
    let v = c as u32;
    48 <= v && v <= 57
}

fn ch_is_hex(c: char) -> (r: bool)
    ensures
        r == is_hex_digit(c),
{
    let v = c as u32;
    (48 <= v && v <= 57) || (97 <= v && v <= 102) || (65 <= v && v <= 70)
}

fn ch_dec_val(c: char) -> (r: u32)
    requires
        is_dec_digit(c),
    ensures
        r == dec_val(c),
{
    c as u32 - 48
}

fn ch_hex_val(c: char) -> (r: u32)
    requires
        is_hex_digit(c),
    ensures
        r == hex_val(c),
{
    let v = c as u32;
    if v <= 57 {
        v - 48
    } else if v >= 97 {
        v - 87
    } else {
        v - 55
    }
}

fn ch_is_meta(c: char) -> (r: bool)
    ensures
        r == is_metachar(c),
{
    c == '(' || c == ')' || c == '{' || c == '}' || c == '[' || c == ']' || c == '.' || c == '*'
        || c == '?' || c == '+' || c == '^' || c == '|' || c == '\\' || c == '#'
}

/// `acc * 10 + d`, or `None` past `u32::MAX`.
fn mul10_add(acc: u32, d: u32) -> (r: Option<u32>)
    requires
        d < 10,
    ensures
        match r {
            Option::Some(v) => v == acc * 10 + d,
            Option::None => acc * 10 + d > u32::MAX,
        },
{
    let wide: u64 = acc as u64 * 10 + d as u64;
    if wide <= u32::MAX as u64 {
        Option::Some(wide as u32)
    } else {
        Option::None
    }
}

/// `acc * 16 + d`, or `None` past `u32::MAX`.
fn mul16_add(acc: u32, d: u32) -> (r: Option<u32>)
    requires
        d < 16,
    ensures
        match r {
            Option::Some(v) => v == acc * 16 + d,
            Option::None => acc * 16 + d > u32::MAX,
        },
{
    let wide: u64 = acc as u64 * 16 + d as u64;
    if wide <= u32::MAX as u64 {
        Option::Some(wide as u32)
    } else {
        Option::None
    }
}

/// The atom of a single character that opens no longer construct.
fn atom_of_char(c: char) -> (r: RegexAtom)
    requires
        c != '{' && c != '[' && c != '#' && c != '\\',
    ensures
        r@ == match simple_atom(c) {
            Option::Some(a) => a,
            Option::None => SpecAtom::Literal(c),
        },
{
    if c == '(' {
        RegexAtom::LParen
    } else if c == ')' {
        RegexAtom::RParen
    } else if c == '.' {
        RegexAtom::QuantWildcard
    } else if c == '*' {
        RegexAtom::QuantKleene
    } else if c == '?' {
        RegexAtom::QuantOptional
    } else if c == '+' {
        RegexAtom::QuantPlus
    } else if c == '|' {
        RegexAtom::Or
    } else if c == ' ' {
        RegexAtom::Whitespace(WhitespaceKind::Space)
    } else if c == '\n' {
        RegexAtom::Whitespace(WhitespaceKind::NewLine)
    } else if c == '\t' {
        RegexAtom::Whitespace(WhitespaceKind::Tab)
    } else if c == '\r' {
        RegexAtom::Whitespace(WhitespaceKind::CR)
    } else {
        RegexAtom::Literal(c)
    }
}

/// The tokenizer.  It borrows the pattern text and reads it character by
/// character.
pub struct Lexer<'a> {
    rx: &'a str,
}

impl<'a> View for Lexer<'a> {
    type V = Seq<char>;

    closed spec fn view(&self) -> Seq<char> {
        self.rx@
    }
}

impl<'a> Lexer<'a> {
    /// A tokenizer over the given pattern text.
    pub fn new(regex: &'a str) -> (r: Self)
        ensures
            r@ == regex@,
    {
        Lexer { rx: regex }
    }

    /// One `{...}` repetition bound whose `{` stands at `open`.
    fn lex_repetitions(&self, n: usize, open: usize) -> (r: Result<(PositionedAtom, usize), LexError>)
        requires
            n == self@.len(),
            open < n,
        ensures
            lexed_item_matches(r, spec_lex_repetitions(self@, open as int)),
    {
        let s = self.rx;
        if n - open <= 1 {
            return Result::Err(
                LexError { kind: LexErrorKind::MalformedRepetitionBound, position: open },
            );
        }
        let mut i: usize = open + 1;
        let mut first: bool = true;
        let mut mn: Option<u32> = Option::None;
        let mut mx: Option<u32> = Option::None;
        loop
            invariant
                n == s@.len(),
                s@ == self@,
                open + 1 <= i <= n,
                spec_lex_repetitions(s@, open as int) == spec_rep_scan(
                    s@,
                    i as int,
                    first,
                    mn,
                    mx,
                    open as int,
                ),
            decreases n - i,
        {
            if i >= n {
                return Result::Err(
                    LexError { kind: LexErrorKind::MalformedRepetitionBound, position: open },
                );
            }
            let c = s.get_char(i);
            if ch_is_dec(c) {
                let d = ch_dec_val(c);
                if first {
                    let cur: u32 = match mn {
                        Option::None => 0,
                        Option::Some(v) => v,
                    };
                    match mul10_add(cur, d) {
                        Option::Some(v) => {
                            mn = Option::Some(v);
                        },
                        Option::None => {
                            return Result::Err(
                                LexError {
                                    kind: LexErrorKind::MalformedRepetitionBound,
                                    position: i,
                                },
                            );
                        },
                    }
                } else {
                    let cur: u32 = match mx {
                        Option::None => 0,
                        Option::Some(v) => v,
                    };
                    match mul10_add(cur, d) {
                        Option::Some(v) => {
                            mx = Option::Some(v);
                        },
                        Option::None => {
                            return Result::Err(
                                LexError {
                                    kind: LexErrorKind::MalformedRepetitionBound,
                                    position: i,
                                },
                            );
                        },
                    }
                }
            } else if c == ',' {
                if first {
                    first = false;
                } else {
                    return Result::Err(
                        LexError { kind: LexErrorKind::MalformedRepetitionBound, position: i },
                    );
                }
            } else if c == '}' {
                let bmn: Option<u32> = mn;
                let bmx: Option<u32> = if first {
                    mn
                } else {
                    mx
                };
                let bad: bool = match (bmn, bmx) {
                    (Option::Some(a), Option::Some(b)) => a > b,
                    _ => false,
                };
                if bad {
                    return Result::Err(
                        LexError { kind: LexErrorKind::MalformedRepetitionBound, position: i },
                    );
                }
                return Result::Ok(
                    ((RegexAtom::Repetition(bmn, bmx), Position { start: open, end: i }), i + 1),
                );
            } else {
                return Result::Err(
                    LexError { kind: LexErrorKind::MalformedRepetitionBound, position: i },
                );
            }
            i = i + 1;
        }
    }

    /// One `[...]` bracket expression whose `[` stands at `open`.
    fn lex_bracket_expression(&self, n: usize, open: usize) -> (r: Result<
        (PositionedAtom, usize),
        LexError,
    >)
        requires
            n == self@.len(),
            open < n,
        ensures
            lexed_item_matches(r, spec_lex_bracket(self@, open as int)),
    {
        let s = self.rx;
        if n - open <= 1 {
            return Result::Err(LexError { kind: LexErrorKind::UnterminatedBracket, position: open });
        }
        let mut neg: bool = false;
        let mut i: usize = open + 1;
        if s.get_char(i) == '^' {
            neg = true;
            i = i + 1;
        }
        let mut items: Vec<BracketExpression> = Vec::new();
        loop
            invariant
                n == s@.len(),
                s@ == self@,
                open + 1 <= i <= n,
                spec_lex_bracket(s@, open as int) == spec_bracket_scan(
                    s@,
                    i as int,
                    neg,
                    view_brackets(items@),
                    open as int,
                ),
            decreases n - i,
        {
            if i >= n {
                return Result::Err(
                    LexError { kind: LexErrorKind::UnterminatedBracket, position: open },
                );
            }
            let c = s.get_char(i);
            if c == ']' {
                let atom = RegexAtom::BracketExpressions { negated: neg, ranges: items };
                return Result::Ok(((atom, Position { start: open, end: i }), i + 1));
            }
            if n - i <= 1 {
                return Result::Err(
                    LexError { kind: LexErrorKind::UnterminatedBracket, position: open },
                );
            }
            if s.get_char(i + 1) == '-' {
                if n - i <= 2 {
                    return Result::Err(
                        LexError { kind: LexErrorKind::UnterminatedBracket, position: open },
                    );
                }
                let hi = s.get_char(i + 2);
                let item = BracketExpression::Ranged(
                    (RegexAtom::Range(c, hi), Position { start: i, end: i + 2 }),
                );
                proof {
                    lemma_view_brackets_push(items@, item);
                }
                items.push(item);
                i = i + 3;
            } else {
                let item = BracketExpression::Single(
                    (RegexAtom::Literal(c), Position { start: i, end: i }),
                );
                proof {
                    lemma_view_brackets_push(items@, item);
                }
                items.push(item);
                i = i + 1;
            }
        }
    }

    /// One `#{name}` variable whose `#` stands at `hash`.
    fn lex_variables(&self, n: usize, hash: usize) -> (r: Result<(PositionedAtom, usize), LexError>)
        requires
            n == self@.len(),
            hash < n,
        ensures
            lexed_item_matches(r, spec_lex_variable(self@, hash as int)),
    {
        let s = self.rx;
        if n - hash <= 1 {
            return Result::Err(
                LexError { kind: LexErrorKind::UnterminatedNamedGroup, position: hash },
            );
        }
        if s.get_char(hash + 1) != '{' {
            return Result::Err(
                LexError { kind: LexErrorKind::UnterminatedNamedGroup, position: hash + 1 },
            );
        }
        let mut name = String::new();
        let mut i: usize = hash + 2;
        loop
            invariant
                n == s@.len(),
                s@ == self@,
                hash + 2 <= i <= n,
                spec_lex_variable(s@, hash as int) == spec_name_scan(
                    s@,
                    i as int,
                    name@,
                    hash as int,
                    true,
                ),
            decreases n - i,
        {
            if i >= n {
                return Result::Err(
                    LexError { kind: LexErrorKind::UnterminatedNamedGroup, position: hash },
                );
            }
            let c = s.get_char(i);
            if c == '}' {
                return Result::Ok(
                    ((RegexAtom::Variable(name), Position { start: hash, end: i }), i + 1),
                );
            }
            push_char(&mut name, c);
            i = i + 1;
        }
    }

    /// One `\p{name}` character class whose `\` stands at `bs`.
    fn lex_char_classes(&self, n: usize, bs: usize) -> (r: Result<(PositionedAtom, usize), LexError>)
        requires
            n == self@.len(),
            bs + 1 < n,
        ensures
            lexed_item_matches(r, spec_lex_class(self@, bs as int)),
    {
        let s = self.rx;
        if n - bs <= 2 {
            return Result::Err(LexError { kind: LexErrorKind::UnterminatedNamedGroup, position: bs });
        }
        if s.get_char(bs + 2) != '{' {
            return Result::Err(
                LexError { kind: LexErrorKind::UnterminatedNamedGroup, position: bs + 2 },
            );
        }
        let mut name = String::new();
        let mut i: usize = bs + 3;
        loop
            invariant
                n == s@.len(),
                s@ == self@,
                bs + 3 <= i <= n,
                spec_lex_class(s@, bs as int) == spec_name_scan(s@, i as int, name@, bs as int, false),
            decreases n - i,
        {
            if i >= n {
                return Result::Err(
                    LexError { kind: LexErrorKind::UnterminatedNamedGroup, position: bs },
                );
            }
            let c = s.get_char(i);
            if c == '}' {
                return Result::Ok(
                    ((RegexAtom::CharClass(name), Position { start: bs, end: i }), i + 1),
                );
            }
            push_char(&mut name, c);
            i = i + 1;
        }
    }

    /// One `\xHH..` scalar literal whose `\` stands at `bs`.
    fn lex_unicode_char(&self, n: usize, bs: usize) -> (r: Result<(PositionedAtom, usize), LexError>)
        requires
            n == self@.len(),
            bs + 2 < n,
            is_hex_digit(self@[bs as int + 2]),
        ensures
            lexed_item_matches(
                r,
                spec_hex_scan(self@, bs as int + 3, hex_val(self@[bs as int + 2]), bs as int),
            ),
    {
        let s = self.rx;
        let mut acc: u32 = ch_hex_val(s.get_char(bs + 2));
        let mut i: usize = bs + 3;
        loop
            invariant
                n == s@.len(),
                s@ == self@,
                bs + 3 <= i <= n,
                spec_hex_scan(s@, bs as int + 3, hex_val(s@[bs as int + 2]), bs as int)
                    == spec_hex_scan(s@, i as int, acc as int, bs as int),
            ensures
                n == s@.len(),
                s@ == self@,
                bs + 3 <= i <= n,
                spec_hex_scan(s@, bs as int + 3, hex_val(s@[bs as int + 2]), bs as int)
                    == spec_hex_scan(s@, i as int, acc as int, bs as int),
                i >= n || !is_hex_digit(s@[i as int]),
            decreases n - i,
        {
            if i >= n {
                break;
            }
            let c = s.get_char(i);
            if !ch_is_hex(c) {
                break;
            }
            let d = ch_hex_val(c);
            match mul16_add(acc, d) {
                Option::Some(v) => {
                    acc = v;
                },
                Option::None => {
                    return Result::Err(
                        LexError { kind: LexErrorKind::InvalidUnicodeScalar, position: i },
                    );
                },
            }
            i = i + 1;
        }
        match scalar_char(acc) {
            Option::Some(c) => Result::Ok(
                ((RegexAtom::Literal(c), Position { start: bs, end: i - 1 }), i),
            ),
            Option::None => Result::Err(
                LexError { kind: LexErrorKind::InvalidUnicodeScalar, position: i - 1 },
            ),
        }
    }

    /// One `\x{H..,H..}` scalar range whose `\` stands at `bs`.
    fn lex_unicode_range(&self, n: usize, bs: usize) -> (r: Result<(PositionedAtom, usize), LexError>)
        requires
            n == self@.len(),
            bs + 2 < n,
            self@[bs as int + 2] == '{',
        ensures
            lexed_item_matches(
                r,
                spec_urange_scan(self@, bs as int + 3, false, Option::None, Option::None, bs as int),
            ),
    {
        let s = self.rx;
        let mut seen_comma: bool = false;
        let mut a1: Option<u32> = Option::None;
        let mut a2: Option<u32> = Option::None;
        let mut i: usize = bs + 3;
        loop
            invariant
                n == s@.len(),
                s@ == self@,
                bs + 3 <= i <= n,
                spec_urange_scan(s@, bs as int + 3, false, Option::None, Option::None, bs as int)
                    == spec_urange_scan(s@, i as int, seen_comma, a1, a2, bs as int),
            decreases n - i,
        {
            if i >= n {
                return Result::Err(
                    LexError { kind: LexErrorKind::InvalidUnicodeScalar, position: bs },
                );
            }
            let c = s.get_char(i);
            if c == ',' {
                if seen_comma {
                    return Result::Err(
                        LexError { kind: LexErrorKind::InvalidUnicodeScalar, position: i },
                    );
                }
                seen_comma = true;
            } else if ch_is_hex(c) {
                let d = ch_hex_val(c);
                if !seen_comma {
                    let cur: u32 = match a1 {
                        Option::None => 0,
                        Option::Some(v) => v,
                    };
                    match mul16_add(cur, d) {
                        Option::Some(v) => {
                            a1 = Option::Some(v);
                        },
                        Option::None => {
                            return Result::Err(
                                LexError { kind: LexErrorKind::InvalidUnicodeScalar, position: i },
                            );
                        },
                    }
                } else {
                    let cur: u32 = match a2 {
                        Option::None => 0,
                        Option::Some(v) => v,
                    };
                    match mul16_add(cur, d) {
                        Option::Some(v) => {
                            a2 = Option::Some(v);
                        },
                        Option::None => {
                            return Result::Err(
                                LexError { kind: LexErrorKind::InvalidUnicodeScalar, position: i },
                            );
                        },
                    }
                }
            } else if c == '}' {
                match (a1, a2) {
                    (Option::Some(v1), Option::Some(v2)) => {
                        if !seen_comma {
                            return Result::Err(
                                LexError { kind: LexErrorKind::InvalidUnicodeScalar, position: i },
                            );
                        }
                        let c1 = match scalar_char(v1) {
                            Option::Some(c1) => c1,
                            Option::None => {
                                return Result::Err(
                                    LexError {
                                        kind: LexErrorKind::InvalidUnicodeScalar,
                                        position: i,
                                    },
                                );
                            },
                        };
                        let c2 = match scalar_char(v2) {
                            Option::Some(c2) => c2,
                            Option::None => {
                                return Result::Err(
                                    LexError {
                                        kind: LexErrorKind::InvalidUnicodeScalar,
                                        position: i,
                                    },
                                );
                            },
                        };
                        return Result::Ok(
                            ((RegexAtom::Range(c1, c2), Position { start: bs, end: i }), i + 1),
                        );
                    },
                    _ => {
                        return Result::Err(
                            LexError { kind: LexErrorKind::InvalidUnicodeScalar, position: i },
                        );
                    },
                }
            } else {
                return Result::Err(
                    LexError { kind: LexErrorKind::InvalidUnicodeScalar, position: i },
                );
            }
            i = i + 1;
        }
    }

    /// One `\x` form whose `\` stands at `bs`: a scalar literal or a range.
    fn lex_unicode(&self, n: usize, bs: usize) -> (r: Result<(PositionedAtom, usize), LexError>)
        requires
            n == self@.len(),
            bs < n,
        ensures
            lexed_item_matches(r, spec_lex_unicode(self@, bs as int)),
    {
        let s = self.rx;
        if n - bs <= 2 {
            return Result::Err(LexError { kind: LexErrorKind::InvalidUnicodeScalar, position: bs });
        }
        let c = s.get_char(bs + 2);
        if ch_is_hex(c) {
            self.lex_unicode_char(n, bs)
        } else if c == '{' {
            self.lex_unicode_range(n, bs)
        } else {
            Result::Err(LexError { kind: LexErrorKind::InvalidUnicodeScalar, position: bs + 2 })
        }
    }

    /// The positioned atom sequence of the pattern text, or the first
    /// tokenizer error; the outcome is exactly `lex_spec` of the text.
    pub fn lex(&self) -> (r: Result<Vec<PositionedAtom>, TsegerError>)
        ensures
            match r {
                Result::Ok(v) => lex_spec(self@) == Result::Ok::<
                    Seq<(SpecAtom, Position)>,
                    LexError,
                >(atoms_view(v@)),
                Result::Err(e) => match e {
                    TsegerError::LexerError(le) => lex_spec(self@) == Result::Err::<
                        Seq<(SpecAtom, Position)>,
                        LexError,
                    >(le),
                    _ => false,
                },
            },
    {
        let s = self.rx;
        let n = s.unicode_len();
        let mut tokens: Vec<PositionedAtom> = Vec::new();
        let mut i: usize = 0;
        while i < n
            invariant
                n == s@.len(),
                i <= n,
                s@ == self@,
                lex_rest(s@, 0) == lex_join(atoms_view(tokens@), lex_rest(s@, i as int)),
            decreases n - i,
        {
            let c = s.get_char(i);
            if c == '{' {
                match self.lex_repetitions(n, i) {
                    Result::Ok((pa, j)) => {
                        proof {
                            lemma_lex_repetitions_bounds(s@, i as int);
                            lemma_join_assoc(
                                atoms_view(tokens@),
                                one_atom(pa.0@, pa.1),
                                lex_rest(s@, j as int),
                            );
                            lemma_atoms_view_push(tokens@, pa);
                        }
                        tokens.push(pa);
                        i = j;
                    },
                    Result::Err(e) => {
                        return Result::Err(TsegerError::LexerError(e));
                    },
                }
            } else if c == '[' {
                match self.lex_bracket_expression(n, i) {
                    Result::Ok((pa, j)) => {
                        proof {
                            lemma_lex_bracket_bounds(s@, i as int);
                            lemma_join_assoc(
                                atoms_view(tokens@),
                                one_atom(pa.0@, pa.1),
                                lex_rest(s@, j as int),
                            );
                            lemma_atoms_view_push(tokens@, pa);
                        }
                        tokens.push(pa);
                        i = j;
                    },
                    Result::Err(e) => {
                        return Result::Err(TsegerError::LexerError(e));
                    },
                }
            } else if c == '#' {
                match self.lex_variables(n, i) {
                    Result::Ok((pa, j)) => {
                        proof {
                            lemma_lex_variable_bounds(s@, i as int);
                            lemma_join_assoc(
                                atoms_view(tokens@),
                                one_atom(pa.0@, pa.1),
                                lex_rest(s@, j as int),
                            );
                            lemma_atoms_view_push(tokens@, pa);
                        }
                        tokens.push(pa);
                        i = j;
                    },
                    Result::Err(e) => {
                        return Result::Err(TsegerError::LexerError(e));
                    },
                }
            } else if c == '\\' {
                if n - i <= 1 {
                    return Result::Err(
                        TsegerError::LexerError(
                            LexError { kind: LexErrorKind::UnterminatedEscape, position: i },
                        ),
                    );
                }
                let c2 = s.get_char(i + 1);
                if ch_is_meta(c2) {
                    let pa = (RegexAtom::Literal(c2), Position { start: i, end: i + 1 });
                    proof {
                        lemma_join_assoc(
                            atoms_view(tokens@),
                            one_atom(pa.0@, pa.1),
                            lex_rest(s@, i as int + 2),
                        );
                        lemma_atoms_view_push(tokens@, pa);
                    }
                    tokens.push(pa);
                    i = i + 2;
                } else if c2 == 'n' {
                    let pa = (
                        RegexAtom::Whitespace(WhitespaceKind::NewLine),
                        Position { start: i, end: i + 1 },
                    );
                    proof {
                        lemma_join_assoc(
                            atoms_view(tokens@),
                            one_atom(pa.0@, pa.1),
                            lex_rest(s@, i as int + 2),
                        );
                        lemma_atoms_view_push(tokens@, pa);
                    }
                    tokens.push(pa);
                    i = i + 2;
                } else if c2 == 'r' {
                    let pa = (
                        RegexAtom::Whitespace(WhitespaceKind::CR),
                        Position { start: i, end: i + 1 },
                    );
                    proof {
                        lemma_join_assoc(
                            atoms_view(tokens@),
                            one_atom(pa.0@, pa.1),
                            lex_rest(s@, i as int + 2),
                        );
                        lemma_atoms_view_push(tokens@, pa);
                    }
                    tokens.push(pa);
                    i = i + 2;
                } else if c2 == 't' {
                    let pa = (
                        RegexAtom::Whitespace(WhitespaceKind::Tab),
                        Position { start: i, end: i + 1 },
                    );
                    proof {
                        lemma_join_assoc(
                            atoms_view(tokens@),
                            one_atom(pa.0@, pa.1),
                            lex_rest(s@, i as int + 2),
                        );
                        lemma_atoms_view_push(tokens@, pa);
                    }
                    tokens.push(pa);
                    i = i + 2;
                } else if c2 == 'x' {
                    match self.lex_unicode(n, i) {
                        Result::Ok((pa, j)) => {
                            proof {
                                lemma_lex_unicode_bounds(s@, i as int);
                                lemma_join_assoc(
                                    atoms_view(tokens@),
                                    seq![(pa.0@, pa.1)],
                                    lex_rest(s@, j as int),
                                );
                                lemma_atoms_view_push(tokens@, pa);
                            }
                            tokens.push(pa);
                            i = j;
                        },
                        Result::Err(e) => {
                            return Result::Err(TsegerError::LexerError(e));
                        },
                    }
                } else if c2 == 'p' {
                    match self.lex_char_classes(n, i) {
                        Result::Ok((pa, j)) => {
                            proof {
                                lemma_lex_class_bounds(s@, i as int);
                                lemma_join_assoc(
                                    atoms_view(tokens@),
                                    seq![(pa.0@, pa.1)],
                                    lex_rest(s@, j as int),
                                );
                                lemma_atoms_view_push(tokens@, pa);
                            }
                            tokens.push(pa);
                            i = j;
                        },
                        Result::Err(e) => {
                            return Result::Err(TsegerError::LexerError(e));
                        },
                    }
                } else {
                    return Result::Err(
                        TsegerError::LexerError(
                            LexError { kind: LexErrorKind::UnknownEscape, position: i + 1 },
                        ),
                    );
                }
            } else {
                let a = atom_of_char(c);
                let pa = (a, Position { start: i, end: i });
                proof {
                    lemma_join_assoc(
                        atoms_view(tokens@),
                        one_atom(pa.0@, pa.1),
                        lex_rest(s@, i as int + 1),
                    );
                    lemma_atoms_view_push(tokens@, pa);
                }
                tokens.push(pa);
                i = i + 1;
            }
        }
        proof {
            assert(atoms_view(tokens@) + Seq::<(SpecAtom, Position)>::empty() =~= atoms_view(
                tokens@,
            ));
        }
        Result::Ok(tokens)
    }
}

} // verus!
