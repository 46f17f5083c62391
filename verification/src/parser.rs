//! Parser: recursive descent over the atom sequence, building an immutable
//! syntax tree with fixed precedence, lowest to highest:
//! alternation, concatenation, repetition, atom.
//!
//! An alternation of one branch collapses to that branch; a concatenation
//! of zero atoms is an error; quantifiers compose left to right without
//! collapsing, so `a**` parses as a star of a star.  The whole behaviour of
//! `Parser::parse_expression` is pinned by the specification function
//! `parse_spec`.

use vstd::prelude::*;

use crate::common::ParseError;
use crate::common::ParseErrorKind;
use crate::common::TsegerError;
use crate::lexer::lemma_view_brackets;
use crate::lexer::lex_spec;
use crate::lexer::BracketExpression;
use crate::lexer::view_brackets;
use crate::lexer::Position;
use crate::lexer::RegexAtom;
use crate::lexer::SpecAtom;
use crate::lexer::SpecBracket;
use crate::lexer::WhitespaceKind;

verus! {

/// One node of the immutable syntax tree.
#[derive(Debug, PartialEq, Eq)]
pub enum RegexAST {
    /// A single concrete character.
    Literal(char),
    /// Two or more nodes in written order.
    Concat(Vec<RegexAST>),
    /// Two or more branches; one of them must match.
    Alteration(Vec<RegexAST>),
    /// A parenthesised sub-expression; grouping affects only parse-time
    /// precedence, not runtime shape.
    Group(Box<RegexAST>),
    /// A named character class `\p{name}`.
    CharClass(String),
    /// A bracket character set, optionally negated.
    BracketExpression { negated: bool, items: Vec<BracketExpressionItem> },
    /// A late-bound named variable `#{name}`.
    Variable(String),
    /// Between `min` and `max` repeats of the node; no `max` means
    /// unbounded.
    Repetition { node: Box<RegexAST>, min: u32, max: Option<u32> },
    /// Zero or more repeats.
    Star(Box<RegexAST>),
    /// One or more repeats.
    Plus(Box<RegexAST>),
    /// Zero or one occurrence.
    Question(Box<RegexAST>),
    /// Any single character.
    Dot,
}

/// One item of a bracket character set.
#[derive(Debug, PartialEq, Eq, Clone, Copy)]
pub enum BracketExpressionItem {
    Char(char),
    Range(char, char),
}

/// The mathematical model of a syntax tree node.  Nodes with one child
/// carry it as a one-element sequence, since the model is built purely in
/// specifications.
pub enum SpecAst {
    Literal(char),
    Concat(Seq<SpecAst>),
    Alteration(Seq<SpecAst>),
    Group(Seq<SpecAst>),
    CharClass(Seq<char>),
    BracketExpression { negated: bool, items: Seq<BracketExpressionItem> },
    Variable(Seq<char>),
    Repetition { node: Seq<SpecAst>, min: u32, max: Option<u32> },
    Star(Seq<SpecAst>),
    Plus(Seq<SpecAst>),
    Question(Seq<SpecAst>),
    Dot,
}

/// The model of a group node around `inner`.
pub open spec fn ast_group(inner: SpecAst) -> SpecAst {
    SpecAst::Group(seq![inner])
}

/// The model of a star node around `inner`.
pub open spec fn ast_star(inner: SpecAst) -> SpecAst {
    SpecAst::Star(seq![inner])
}

/// The model of a plus node around `inner`.
pub open spec fn ast_plus(inner: SpecAst) -> SpecAst {
    SpecAst::Plus(seq![inner])
}

/// The model of a question node around `inner`.
pub open spec fn ast_question(inner: SpecAst) -> SpecAst {
    SpecAst::Question(seq![inner])
}

/// The model of a bounded repetition node around `inner`.
pub open spec fn ast_rep(inner: SpecAst, min: u32, max: Option<u32>) -> SpecAst {
    SpecAst::Repetition { node: seq![inner], min: min, max: max }
}

/// The model of a bracket node.
pub open spec fn ast_bracket(negated: bool, items: Seq<BracketExpressionItem>) -> SpecAst {
    SpecAst::BracketExpression { negated: negated, items: items }
}

impl View for RegexAST {
    type V = SpecAst;

    open spec fn view(&self) -> SpecAst
        decreases self,
    {
        match self {
            RegexAST::Literal(c) => SpecAst::Literal(*c),
            RegexAST::Concat(v) => SpecAst::Concat(view_asts(v@)),
            RegexAST::Alteration(v) => SpecAst::Alteration(view_asts(v@)),
            RegexAST::Group(b) => ast_group((**b)@),
            RegexAST::CharClass(name) => SpecAst::CharClass(name@),
            RegexAST::BracketExpression { negated, items } => SpecAst::BracketExpression {
                negated: *negated,
                items: items@,
            },
            RegexAST::Variable(name) => SpecAst::Variable(name@),
            RegexAST::Repetition { node, min, max } => ast_rep((**node)@, *min, *max),
            RegexAST::Star(b) => ast_star((**b)@),
            RegexAST::Plus(b) => ast_plus((**b)@),
            RegexAST::Question(b) => ast_question((**b)@),
            RegexAST::Dot => SpecAst::Dot,
        }
    }
}

/// The element-wise model of a sequence of syntax tree nodes.
pub open spec fn view_asts(v: Seq<RegexAST>) -> Seq<SpecAst>
    decreases v,
{
    if v.len() == 0 {
        Seq::empty()
    } else {
        seq![v[0]@] + view_asts(v.drop_first())
    }
}

/// `view_asts` maps the sequence element by element.
pub proof fn lemma_view_asts(v: Seq<RegexAST>)
    ensures
        view_asts(v).len() == v.len(),
        forall|i: int| 0 <= i < v.len() ==> #[trigger] view_asts(v)[i] == v[i]@,
    decreases v.len(),
{
    if v.len() > 0 {
        lemma_view_asts(v.drop_first());
        assert(view_asts(v) == seq![v[0]@] + view_asts(v.drop_first()));
        assert forall|i: int| 0 <= i < v.len() implies #[trigger] view_asts(v)[i] == v[i]@ by {
            if i > 0 {
                assert(view_asts(v)[i] == view_asts(v.drop_first())[i - 1]);
                assert(v.drop_first()[i - 1] == v[i]);
            }
        }
    }
}

/// Appending a node commutes with taking the model of a node sequence.
pub proof fn lemma_view_asts_push(v: Seq<RegexAST>, x: RegexAST)
    ensures
        view_asts(v.push(x)) == view_asts(v).push(x@),
{
    lemma_view_asts(v);
    lemma_view_asts(v.push(x));
    assert(view_asts(v.push(x)) =~= view_asts(v).push(x@));
}

/// The element-wise model of an atom sequence, spans dropped.
pub open spec fn atoms_kinds(v: Seq<RegexAtom>) -> Seq<SpecAtom> {
    v.map_values(|a: RegexAtom| a@)
}

/// A parser error of kind `k` at atom index `at`.
pub open spec fn parse_err(k: ParseErrorKind, at: int) -> ParseError {
    ParseError { kind: k, position: at as usize }
}

/// The literal character that a whitespace atom stands for.
pub open spec fn ws_char(k: WhitespaceKind) -> char {
    match k {
        WhitespaceKind::Space => ' ',
        WhitespaceKind::Tab => '\t',
        WhitespaceKind::NewLine => '\n',
        WhitespaceKind::CR => '\r',
    }
}

/// A bracket item holding the single character `c`.
pub open spec fn bi_char(c: char) -> BracketExpressionItem {
    BracketExpressionItem::Char(c)
}

/// A bracket item holding the range `a-b`.
pub open spec fn bi_range(a: char, b: char) -> BracketExpressionItem {
    BracketExpressionItem::Range(a, b)
}

/// The syntax tree items of tokenized bracket entries from index `k` on:
/// single characters and ordered ranges; anything else refuses the
/// bracket.
pub open spec fn sp_bracket_items(
    rs: Seq<SpecBracket>,
    k: int,
    acc: Seq<BracketExpressionItem>,
) -> Option<Seq<BracketExpressionItem>>
    decreases rs.len() - k,
{
    if k < 0 || k >= rs.len() {
        Option::Some(acc)
    } else {
        match rs[k] {
            SpecBracket::Single(pa) => match pa.0 {
                SpecAtom::Literal(c) => sp_bracket_items(rs, k + 1, acc.push(bi_char(c))),
                _ => Option::None,
            },
            SpecBracket::Ranged(pa) => match pa.0 {
                SpecAtom::Range(a, b) => if a <= b {
                    sp_bracket_items(rs, k + 1, acc.push(bi_range(a, b)))
                } else {
                    Option::None
                },
                _ => Option::None,
            },
        }
    }
}

/// Alternation: `Concat ('|' Concat)*`, one branch collapsing to itself.
pub open spec fn sp_alternation(t: Seq<SpecAtom>, i: int) -> Result<(SpecAst, int), ParseError>
    decreases t.len() - i, 4int,
{
    match sp_concatenation(t, i) {
        Result::Ok((first, j)) => if i < j <= t.len() {
            sp_alt_rest(t, j, seq![first])
        } else {
            Result::Err(parse_err(ParseErrorKind::UnexpectedToken, i))
        },
        Result::Err(e) => Result::Err(e),
    }
}

/// The remaining `('|' Concat)*` branches of an alternation.
pub open spec fn sp_alt_rest(t: Seq<SpecAtom>, i: int, branches: Seq<SpecAst>) -> Result<
    (SpecAst, int),
    ParseError,
>
    decreases t.len() - i, 5int,
{
    if 0 <= i < t.len() && t[i] is Or {
        match sp_concatenation(t, i + 1) {
            Result::Ok((node, j)) => if i < j <= t.len() {
                sp_alt_rest(t, j, branches.push(node))
            } else {
                Result::Err(parse_err(ParseErrorKind::UnexpectedToken, i))
            },
            Result::Err(e) => Result::Err(e),
        }
    } else {
        if branches.len() == 1 {
            Result::Ok((branches[0], i))
        } else {
            Result::Ok((SpecAst::Alteration(branches), i))
        }
    }
}

/// Concatenation: `Repetition+`, one node collapsing to itself, zero nodes
/// an error.
pub open spec fn sp_concatenation(t: Seq<SpecAtom>, i: int) -> Result<(SpecAst, int), ParseError>
    decreases t.len() - i, 3int,
{
    sp_concat_rest(t, i, Seq::empty())
}

/// The remaining nodes of a concatenation, up to `)`, `|` or the end.
pub open spec fn sp_concat_rest(t: Seq<SpecAtom>, i: int, nodes: Seq<SpecAst>) -> Result<
    (SpecAst, int),
    ParseError,
>
    decreases t.len() - i, 2int,
{
    if 0 <= i < t.len() && !(t[i] is RParen) && !(t[i] is Or) {
        match sp_repetition(t, i) {
            Result::Ok((node, j)) => if i < j <= t.len() {
                sp_concat_rest(t, j, nodes.push(node))
            } else {
                Result::Err(parse_err(ParseErrorKind::UnexpectedToken, i))
            },
            Result::Err(e) => Result::Err(e),
        }
    } else {
        if nodes.len() == 0 {
            Result::Err(parse_err(ParseErrorKind::EmptyConcatenation, i))
        } else if nodes.len() == 1 {
            Result::Ok((nodes[0], i))
        } else {
            Result::Ok((SpecAst::Concat(nodes), i))
        }
    }
}

/// Repetition: an atom followed by quantifiers composing left to right.
pub open spec fn sp_repetition(t: Seq<SpecAtom>, i: int) -> Result<(SpecAst, int), ParseError>
    decreases t.len() - i, 1int,
{
    match sp_atom(t, i) {
        Result::Ok((node, j)) => if i < j <= t.len() {
            sp_quants(t, j, node)
        } else {
            Result::Err(parse_err(ParseErrorKind::UnexpectedToken, i))
        },
        Result::Err(e) => Result::Err(e),
    }
}

/// The quantifier suffixes of one atom: `*`, `+`, `?` and `{m,n}` bounds,
/// each wrapping the node parsed so far.  A bound whose ends are out of
/// order is refused.
pub open spec fn sp_quants(t: Seq<SpecAtom>, i: int, node: SpecAst) -> Result<
    (SpecAst, int),
    ParseError,
>
    decreases t.len() - i, 5int,
{
    if 0 <= i < t.len() {
        match t[i] {
            SpecAtom::QuantKleene => sp_quants(t, i + 1, ast_star(node)),
            SpecAtom::QuantPlus => sp_quants(t, i + 1, ast_plus(node)),
            SpecAtom::QuantOptional => sp_quants(t, i + 1, ast_question(node)),
            SpecAtom::Repetition(mn, mx) => {
                let min = match mn {
                    Option::None => 0u32,
                    Option::Some(v) => v,
                };
                let bad = match mx {
                    Option::None => false,
                    Option::Some(m) => min > m,
                };
                if bad {
                    Result::Err(parse_err(ParseErrorKind::UnexpectedToken, i))
                } else {
                    sp_quants(t, i + 1, ast_rep(node, min, mx))
                }
            },
            _ => Result::Ok((node, i)),
        }
    } else {
        Result::Ok((node, i))
    }
}

/// An atom: a literal, wildcard, whitespace, group, class, bracket set,
/// variable or scalar range; anything else is unexpected here.
pub open spec fn sp_atom(t: Seq<SpecAtom>, i: int) -> Result<(SpecAst, int), ParseError>
    decreases t.len() - i, 0int,
{
    if i < 0 || i >= t.len() {
        Result::Err(parse_err(ParseErrorKind::UnexpectedEnd, i))
    } else {
        match t[i] {
            SpecAtom::Literal(c) => Result::Ok((SpecAst::Literal(c), i + 1)),
            SpecAtom::QuantWildcard => Result::Ok((SpecAst::Dot, i + 1)),
            SpecAtom::Whitespace(k) => Result::Ok((SpecAst::Literal(ws_char(k)), i + 1)),
            SpecAtom::LParen => match sp_alternation(t, i + 1) {
                Result::Ok((inner, j)) => if 0 <= j < t.len() && t[j] is RParen {
                    Result::Ok((ast_group(inner), j + 1))
                } else {
                    Result::Err(parse_err(ParseErrorKind::UnclosedGroup, j))
                },
                Result::Err(e) => Result::Err(e),
            },
            SpecAtom::CharClass(name) => Result::Ok((SpecAst::CharClass(name), i + 1)),
            SpecAtom::Variable(name) => Result::Ok((SpecAst::Variable(name), i + 1)),
            SpecAtom::BracketExpressions { negated, ranges } => match sp_bracket_items(
                ranges,
                0,
                Seq::empty(),
            ) {
                Option::Some(items) => Result::Ok((ast_bracket(negated, items), i + 1)),
                Option::None => Result::Err(parse_err(ParseErrorKind::UnexpectedToken, i)),
            },
            SpecAtom::Range(a, b) => if a <= b {
                Result::Ok((ast_bracket(false, seq![bi_range(a, b)]), i + 1))
            } else {
                Result::Err(parse_err(ParseErrorKind::UnexpectedToken, i))
            },
            _ => Result::Err(parse_err(ParseErrorKind::UnexpectedToken, i)),
        }
    }
}

/// The syntax tree of a whole atom sequence: the alternation must consume
/// every atom.
pub open spec fn parse_spec(t: Seq<SpecAtom>) -> Result<SpecAst, ParseError> {
    match sp_alternation(t, 0) {
        Result::Ok((ast, j)) => if j == t.len() {
            Result::Ok(ast)
        } else {
            Result::Err(parse_err(ParseErrorKind::UnexpectedToken, j))
        },
        Result::Err(e) => Result::Err(e),
    }
}

proof fn lemma_sp_alternation_bounds(t: Seq<SpecAtom>, i: int)
    requires
        0 <= i <= t.len(),
    ensures
        match sp_alternation(t, i) {
            Result::Ok((_, j)) => i < j <= t.len(),
            Result::Err(_) => true,
        },
    decreases t.len() - i, 4int,
{
    lemma_sp_concatenation_bounds(t, i);
    match sp_concatenation(t, i) {
        Result::Ok((first, j)) => {
            lemma_sp_alt_rest_bounds(t, j, seq![first]);
        },
        Result::Err(_) => {},
    }
}

proof fn lemma_sp_alt_rest_bounds(t: Seq<SpecAtom>, i: int, branches: Seq<SpecAst>)
    requires
        0 <= i <= t.len(),
    ensures
        match sp_alt_rest(t, i, branches) {
            Result::Ok((_, j)) => i <= j <= t.len(),
            Result::Err(_) => true,
        },
    decreases t.len() - i, 5int,
{
    if 0 <= i < t.len() && t[i] is Or {
        lemma_sp_concatenation_bounds(t, i + 1);
        match sp_concatenation(t, i + 1) {
            Result::Ok((node, j)) => {
                lemma_sp_alt_rest_bounds(t, j, branches.push(node));
            },
            Result::Err(_) => {},
        }
    }
}

proof fn lemma_sp_concatenation_bounds(t: Seq<SpecAtom>, i: int)
    requires
        0 <= i <= t.len(),
    ensures
        match sp_concatenation(t, i) {
            Result::Ok((_, j)) => i < j <= t.len(),
            Result::Err(_) => true,
        },
    decreases t.len() - i, 3int,
{
    if 0 <= i < t.len() && !(t[i] is RParen) && !(t[i] is Or) {
        lemma_sp_repetition_bounds(t, i);
        match sp_repetition(t, i) {
            Result::Ok((node, j)) => {
                lemma_sp_concat_rest_bounds(t, j, Seq::empty().push(node));
            },
            Result::Err(_) => {},
        }
    }
}

proof fn lemma_sp_concat_rest_bounds(t: Seq<SpecAtom>, i: int, nodes: Seq<SpecAst>)
    requires
        0 <= i <= t.len(),
    ensures
        match sp_concat_rest(t, i, nodes) {
            Result::Ok((_, j)) => i <= j <= t.len(),
            Result::Err(_) => true,
        },
    decreases t.len() - i, 2int,
{
    if 0 <= i < t.len() && !(t[i] is RParen) && !(t[i] is Or) {
        lemma_sp_repetition_bounds(t, i);
        match sp_repetition(t, i) {
            Result::Ok((node, j)) => {
                lemma_sp_concat_rest_bounds(t, j, nodes.push(node));
            },
            Result::Err(_) => {},
        }
    }
}

proof fn lemma_sp_repetition_bounds(t: Seq<SpecAtom>, i: int)
    requires
        0 <= i <= t.len(),
    ensures
        match sp_repetition(t, i) {
            Result::Ok((_, j)) => i < j <= t.len(),
            Result::Err(_) => true,
        },
    decreases t.len() - i, 1int,
{
    lemma_sp_atom_bounds(t, i);
    match sp_atom(t, i) {
        Result::Ok((node, j)) => {
            lemma_sp_quants_bounds(t, j, node);
        },
        Result::Err(_) => {},
    }
}

proof fn lemma_sp_quants_bounds(t: Seq<SpecAtom>, i: int, node: SpecAst)
    requires
        0 <= i <= t.len(),
    ensures
        match sp_quants(t, i, node) {
            Result::Ok((_, j)) => i <= j <= t.len(),
            Result::Err(_) => true,
        },
    decreases t.len() - i, 5int,
{
    if 0 <= i < t.len() {
        match t[i] {
            SpecAtom::QuantKleene => {
                lemma_sp_quants_bounds(t, i + 1, ast_star(node));
            },
            SpecAtom::QuantPlus => {
                lemma_sp_quants_bounds(t, i + 1, ast_plus(node));
            },
            SpecAtom::QuantOptional => {
                lemma_sp_quants_bounds(t, i + 1, ast_question(node));
            },
            SpecAtom::Repetition(mn, mx) => {
                let min = match mn {
                    Option::None => 0u32,
                    Option::Some(v) => v,
                };
                let bad = match mx {
                    Option::None => false,
                    Option::Some(m) => min > m,
                };
                if !bad {
                    lemma_sp_quants_bounds(t, i + 1, ast_rep(node, min, mx));
                }
            },
            _ => {},
        }
    }
}

proof fn lemma_sp_atom_bounds(t: Seq<SpecAtom>, i: int)
    requires
        0 <= i <= t.len(),
    ensures
        match sp_atom(t, i) {
            Result::Ok((_, j)) => i < j <= t.len(),
            Result::Err(_) => true,
        },
    decreases t.len() - i, 0int,
{
    if 0 <= i < t.len() {
        match t[i] {
            SpecAtom::LParen => {
                lemma_sp_alternation_bounds(t, i + 1);
            },
            _ => {},
        }
    }
}

/// Does the executable outcome of a sub-parser agree with its model?
pub open spec fn parsed_matches(
    r: Result<(RegexAST, usize), ParseError>,
    m: Result<(SpecAst, int), ParseError>,
) -> bool {
    match (r, m) {
        (Result::Ok((ast, j)), Result::Ok((mast, mj))) => ast@ == mast && j == mj,
        (Result::Err(e), Result::Err(me)) => e == me,
        _ => false,
    }
}

/// The syntax tree items of one bracket atom's entries, or `None` where an
/// entry is no single character or ordered range.
fn convert_bracket_items(ranges: &Vec<BracketExpression>) -> (r: Option<Vec<BracketExpressionItem>>)
    ensures
        match (r, sp_bracket_items(view_brackets(ranges@), 0, Seq::empty())) {
            (Option::Some(v), Option::Some(m)) => v@ == m,
            (Option::None, Option::None) => true,
            _ => false,
        },
{
    let n = ranges.len();
    let mut items: Vec<BracketExpressionItem> = Vec::new();
    let mut k: usize = 0;
    while k < n
        invariant
            n == ranges@.len(),
            k <= n,
            sp_bracket_items(view_brackets(ranges@), 0, Seq::empty()) == sp_bracket_items(
                view_brackets(ranges@),
                k as int,
                items@,
            ),
        decreases n - k,
    {
        proof {
            lemma_view_brackets(ranges@);
        }
        match &ranges[k] {
            BracketExpression::Single(pa) => match &pa.0 {
                RegexAtom::Literal(c) => {
                    proof {
                        assert(items@.push(BracketExpressionItem::Char(*c)) == items@.push(
                            bi_char(*c),
                        ));
                    }
                    items.push(BracketExpressionItem::Char(*c));
                },
                _ => {
                    return Option::None;
                },
            },
            BracketExpression::Ranged(pa) => match &pa.0 {
                RegexAtom::Range(a, b) => {
                    if (*a as u32) <= (*b as u32) {
                        proof {
                            assert(items@.push(BracketExpressionItem::Range(*a, *b)) == items@.push(
                                bi_range(*a, *b),
                            ));
                        }
                        items.push(BracketExpressionItem::Range(*a, *b));
                    } else {
                        return Option::None;
                    }
                },
                _ => {
                    return Option::None;
                },
            },
        }
        k = k + 1;
    }
    proof {
        lemma_view_brackets(ranges@);
    }
    Option::Some(items)
}

/// The parser.  It consumes an atom sequence and builds the syntax tree.
pub struct Parser {}

impl Parser {
    /// A fresh parser.
    pub fn new() -> (r: Self) {
        Parser {  }
    }

    /// The syntax tree of the whole atom sequence, or the first parser
    /// error; the outcome is exactly `parse_spec` of the atoms' models.
    pub fn parse_expression(&self, tokens: &Vec<RegexAtom>) -> (r: Result<RegexAST, TsegerError>)
        ensures
            match r {
                Result::Ok(ast) => parse_spec(atoms_kinds(tokens@)) == Result::Ok::<
                    SpecAst,
                    ParseError,
                >(ast@),
                Result::Err(e) => match e {
                    TsegerError::ParserError(pe) => parse_spec(atoms_kinds(tokens@))
                        == Result::Err::<SpecAst, ParseError>(pe),
                    _ => false,
                },
            },
    {
        match self.parse_alteration(tokens, 0) {
            Result::Ok((ast, j)) => {
                if j == tokens.len() {
                    Result::Ok(ast)
                } else {
                    Result::Err(
                        TsegerError::ParserError(
                            ParseError { kind: ParseErrorKind::UnexpectedToken, position: j },
                        ),
                    )
                }
            },
            Result::Err(e) => Result::Err(TsegerError::ParserError(e)),
        }
    }

    /// `Concat ('|' Concat)*`.
    fn parse_alteration(&self, tokens: &Vec<RegexAtom>, pos: usize) -> (r: Result<
        (RegexAST, usize),
        ParseError,
    >)
        requires
            pos <= tokens@.len(),
        ensures
            parsed_matches(r, sp_alternation(atoms_kinds(tokens@), pos as int)),
        decreases tokens@.len() - pos, 4int,
    {
        let ghost t = atoms_kinds(tokens@);
        let n = tokens.len();
        proof {
            lemma_sp_concatenation_bounds(t, pos as int);
        }
        let (first, mut cur) = match self.parse_concatenation(tokens, pos) {
            Result::Ok(p) => p,
            Result::Err(e) => {
                return Result::Err(e);
            },
        };
        let mut branches: Vec<RegexAST> = Vec::new();
        proof {
            lemma_view_asts_push(branches@, first);
            assert(view_asts(Seq::<RegexAST>::empty()) == Seq::<SpecAst>::empty());
            assert(Seq::<SpecAst>::empty().push(first@) =~= seq![first@]);
        }
        branches.push(first);
        loop
            invariant
                n == tokens@.len(),
                t == atoms_kinds(tokens@),
                pos < cur <= n,
                branches@.len() >= 1,
                sp_alternation(t, pos as int) == sp_alt_rest(t, cur as int, view_asts(branches@)),
            decreases n - cur,
        {
            let mut is_or: bool = false;
            if cur < n {
                is_or = matches!(&tokens[cur], RegexAtom::Or);
            }
            if !is_or {
                proof {
                    lemma_view_asts(branches@);
                }
                if branches.len() == 1 {
                    let ast = branches.remove(0);
                    return Result::Ok((ast, cur));
                }
                return Result::Ok((RegexAST::Alteration(branches), cur));
            }
            proof {
                lemma_sp_concatenation_bounds(t, cur as int + 1);
            }
            match self.parse_concatenation(tokens, cur + 1) {
                Result::Ok((node, j)) => {
                    proof {
                        lemma_view_asts_push(branches@, node);
                    }
                    branches.push(node);
                    cur = j;
                },
                Result::Err(e) => {
                    return Result::Err(e);
                },
            }
        }
    }

    /// `Repetition+`, ending before `)`, `|` or the end of the atoms.
    fn parse_concatenation(&self, tokens: &Vec<RegexAtom>, pos: usize) -> (r: Result<
        (RegexAST, usize),
        ParseError,
    >)
        requires
            pos <= tokens@.len(),
        ensures
            parsed_matches(r, sp_concatenation(atoms_kinds(tokens@), pos as int)),
        decreases tokens@.len() - pos, 3int,
    {
        let ghost t = atoms_kinds(tokens@);
        let n = tokens.len();
        let mut nodes: Vec<RegexAST> = Vec::new();
        let mut cur: usize = pos;
        loop
            invariant
                n == tokens@.len(),
                t == atoms_kinds(tokens@),
                pos <= cur <= n,
                sp_concatenation(t, pos as int) == sp_concat_rest(t, cur as int, view_asts(nodes@)),
            decreases n - cur,
        {
            let mut stop: bool = cur >= n;
            if !stop {
                stop = matches!(&tokens[cur], RegexAtom::RParen | RegexAtom::Or);
            }
            if stop {
                proof {
                    lemma_view_asts(nodes@);
                }
                if nodes.len() == 0 {
                    return Result::Err(
                        ParseError { kind: ParseErrorKind::EmptyConcatenation, position: cur },
                    );
                }
                if nodes.len() == 1 {
                    let ast = nodes.remove(0);
                    return Result::Ok((ast, cur));
                }
                return Result::Ok((RegexAST::Concat(nodes), cur));
            }
            proof {
                lemma_sp_repetition_bounds(t, cur as int);
            }
            match self.parse_repetition(tokens, cur) {
                Result::Ok((node, j)) => {
                    proof {
                        lemma_view_asts_push(nodes@, node);
                    }
                    nodes.push(node);
                    cur = j;
                },
                Result::Err(e) => {
                    return Result::Err(e);
                },
            }
        }
    }

    /// One atom and its quantifier suffixes.
    fn parse_repetition(&self, tokens: &Vec<RegexAtom>, pos: usize) -> (r: Result<
        (RegexAST, usize),
        ParseError,
    >)
        requires
            pos <= tokens@.len(),
        ensures
            parsed_matches(r, sp_repetition(atoms_kinds(tokens@), pos as int)),
        decreases tokens@.len() - pos, 1int,
    {
        let ghost t = atoms_kinds(tokens@);
        let n = tokens.len();
        proof {
            lemma_sp_atom_bounds(t, pos as int);
        }
        let (first, mut cur) = match self.parse_atom(tokens, pos) {
            Result::Ok(p) => p,
            Result::Err(e) => {
                return Result::Err(e);
            },
        };
        let mut node = first;
        loop
            invariant
                n == tokens@.len(),
                t == atoms_kinds(tokens@),
                pos < cur <= n,
                sp_repetition(t, pos as int) == sp_quants(t, cur as int, node@),
            decreases n - cur,
        {
            if cur >= n {
                return Result::Ok((node, cur));
            }
            let ghost node_pre = node@;
            match &tokens[cur] {
                RegexAtom::QuantKleene => {
                    node = RegexAST::Star(Box::new(node));
                    proof {
                        assert(node@ == ast_star(node_pre));
                    }
                    cur = cur + 1;
                },
                RegexAtom::QuantPlus => {
                    node = RegexAST::Plus(Box::new(node));
                    proof {
                        assert(node@ == ast_plus(node_pre));
                    }
                    cur = cur + 1;
                },
                RegexAtom::QuantOptional => {
                    node = RegexAST::Question(Box::new(node));
                    proof {
                        assert(node@ == ast_question(node_pre));
                    }
                    cur = cur + 1;
                },
                RegexAtom::Repetition(mn, mx) => {
                    let bmin: u32 = match mn {
                        Option::None => 0,
                        Option::Some(v) => *v,
                    };
                    let bmax: Option<u32> = *mx;
                    let bad: bool = match bmax {
                        Option::None => false,
                        Option::Some(m) => bmin > m,
                    };
                    if bad {
                        return Result::Err(
                            ParseError { kind: ParseErrorKind::UnexpectedToken, position: cur },
                        );
                    }
                    node = RegexAST::Repetition { node: Box::new(node), min: bmin, max: bmax };
                    proof {
                        assert(node@ == ast_rep(node_pre, bmin, bmax));
                    }
                    cur = cur + 1;
                },
                _ => {
                    return Result::Ok((node, cur));
                },
            }
        }
    }

    /// One atom: the highest-precedence grammar level.
    fn parse_atom(&self, tokens: &Vec<RegexAtom>, pos: usize) -> (r: Result<
        (RegexAST, usize),
        ParseError,
    >)
        requires
            pos <= tokens@.len(),
        ensures
            parsed_matches(r, sp_atom(atoms_kinds(tokens@), pos as int)),
        decreases tokens@.len() - pos, 0int,
    {
        let ghost t = atoms_kinds(tokens@);
        let n = tokens.len();
        if pos >= n {
            return Result::Err(ParseError { kind: ParseErrorKind::UnexpectedEnd, position: pos });
        }
        match &tokens[pos] {
            RegexAtom::Literal(c) => Result::Ok((RegexAST::Literal(*c), pos + 1)),
            RegexAtom::QuantWildcard => Result::Ok((RegexAST::Dot, pos + 1)),
            RegexAtom::Whitespace(k) => {
                let ch: char = match k {
                    WhitespaceKind::Space => ' ',
                    WhitespaceKind::Tab => '\t',
                    WhitespaceKind::NewLine => '\n',
                    WhitespaceKind::CR => '\r',
                };
                Result::Ok((RegexAST::Literal(ch), pos + 1))
            },
            RegexAtom::LParen => {
                proof {
                    lemma_sp_alternation_bounds(t, pos as int + 1);
                }
                match self.parse_alteration(tokens, pos + 1) {
                    Result::Ok((inner, j)) => {
                        let mut closed: bool = false;
                        if j < n {
                            closed = matches!(&tokens[j], RegexAtom::RParen);
                        }
                        if closed {
                            let node = RegexAST::Group(Box::new(inner));
                            Result::Ok((node, j + 1))
                        } else {
                            Result::Err(
                                ParseError { kind: ParseErrorKind::UnclosedGroup, position: j },
                            )
                        }
                    },
                    Result::Err(e) => Result::Err(e),
                }
            },
            RegexAtom::CharClass(name) => Result::Ok((RegexAST::CharClass(name.clone()), pos + 1)),
            RegexAtom::Variable(name) => Result::Ok((RegexAST::Variable(name.clone()), pos + 1)),
            RegexAtom::BracketExpressions { negated, ranges } => {
                match convert_bracket_items(ranges) {
                    Option::Some(items) => Result::Ok(
                        (
                            RegexAST::BracketExpression { negated: *negated, items: items },
                            pos + 1,
                        ),
                    ),
                    Option::None => Result::Err(
                        ParseError { kind: ParseErrorKind::UnexpectedToken, position: pos },
                    ),
                }
            },
            RegexAtom::Range(a, b) => {
                if (*a as u32) <= (*b as u32) {
                    let mut items: Vec<BracketExpressionItem> = Vec::new();
                    items.push(BracketExpressionItem::Range(*a, *b));
                    proof {
                        assert(items@ =~= seq![bi_range(*a, *b)]);
                    }
                    Result::Ok(
                        (RegexAST::BracketExpression { negated: false, items: items }, pos + 1),
                    )
                } else {
                    Result::Err(ParseError { kind: ParseErrorKind::UnexpectedToken, position: pos })
                }
            },
            _ => Result::Err(ParseError { kind: ParseErrorKind::UnexpectedToken, position: pos }),
        }
    }
}


/// Does every repetition bound of the tree respect `min <= max`?
pub open spec fn bounds_ok(ast: SpecAst) -> bool
    decreases ast, 0int,
{
    match ast {
        SpecAst::Concat(ch) => seq_bounds_ok(ch),
        SpecAst::Alteration(ch) => seq_bounds_ok(ch),
        SpecAst::Group(ch) => seq_bounds_ok(ch),
        SpecAst::Star(ch) => seq_bounds_ok(ch),
        SpecAst::Plus(ch) => seq_bounds_ok(ch),
        SpecAst::Question(ch) => seq_bounds_ok(ch),
        SpecAst::Repetition { node, min, max } => (match max {
            Option::None => true,
            Option::Some(m) => min <= m,
        }) && seq_bounds_ok(node),
        _ => true,
    }
}

/// Does every repetition bound of every tree of the sequence respect the
/// order of its ends?
pub open spec fn seq_bounds_ok(ch: Seq<SpecAst>) -> bool
    decreases ch, 1int,
{
    if ch.len() == 0 {
        true
    } else {
        bounds_ok(ch[0]) && seq_bounds_ok(ch.drop_first())
    }
}

/// `seq_bounds_ok` holds exactly when every element's bounds are ordered.
pub proof fn lemma_seq_bounds_ok_index(ch: Seq<SpecAst>)
    ensures
        seq_bounds_ok(ch) <==> (forall|i: int| 0 <= i < ch.len() ==> bounds_ok(#[trigger] ch[i])),
    decreases ch.len(),
{
    if ch.len() > 0 {
        lemma_seq_bounds_ok_index(ch.drop_first());
        assert forall|i: int| 0 <= i < ch.len() && seq_bounds_ok(ch) implies bounds_ok(
            #[trigger] ch[i],
        ) by {
            if i > 0 {
                assert(ch.drop_first()[i - 1] == ch[i]);
            }
        }
        if forall|i: int| 0 <= i < ch.len() ==> bounds_ok(#[trigger] ch[i]) {
            assert forall|i: int| 0 <= i < ch.drop_first().len() implies bounds_ok(
                #[trigger] ch.drop_first()[i],
            ) by {
                assert(ch.drop_first()[i] == ch[i + 1]);
            }
        }
    }
}

/// The composed front end: the pattern text tokenized, spans dropped, and
/// parsed; `None` where either stage fails.
pub open spec fn pattern_ast(s: Seq<char>) -> Option<SpecAst> {
    match lex_spec(s) {
        Result::Ok(atoms) => match parse_spec(
            atoms.map_values(|pa: (SpecAtom, Position)| pa.0),
        ) {
            Result::Ok(ast) => Option::Some(ast),
            Result::Err(_) => Option::None,
        },
        Result::Err(_) => Option::None,
    }
}

/// Law: determinism.  Identical pattern text always yields an identical
/// atom sequence and an identical syntax tree.  This holds because
/// `Lexer::lex` and `Parser::parse_expression` each return exactly a
/// function of their input — `lex_spec` and `parse_spec` — so equal texts
/// cannot produce different outcomes.
pub proof fn lemma_front_end_deterministic(s1: Seq<char>, s2: Seq<char>)
    requires
        s1 == s2,
    ensures
        lex_spec(s1) == lex_spec(s2),
        pattern_ast(s1) == pattern_ast(s2),
{
}


/// A one-node sequence is within bounds exactly when the node is.
proof fn lemma_seq_bounds_ok_one(x: SpecAst)
    ensures
        seq_bounds_ok(seq![x]) <==> bounds_ok(x),
{
    let ch = seq![x];
    assert(ch[0] == x);
    assert(ch.drop_first() =~= Seq::<SpecAst>::empty());
    assert(seq_bounds_ok(Seq::<SpecAst>::empty()));
}

proof fn lemma_sp_alternation_bounds_ok(t: Seq<SpecAtom>, i: int)
    ensures
        match sp_alternation(t, i) {
            Result::Ok((ast, _)) => bounds_ok(ast),
            Result::Err(_) => true,
        },
    decreases t.len() - i, 4int,
{
    lemma_sp_concatenation_bounds_ok(t, i);
    match sp_concatenation(t, i) {
        Result::Ok((first, j)) => {
            if i < j <= t.len() {
                lemma_seq_bounds_ok_one(first);
                lemma_sp_alt_rest_bounds_ok(t, j, seq![first]);
            }
        },
        Result::Err(_) => {},
    }
}

proof fn lemma_sp_alt_rest_bounds_ok(t: Seq<SpecAtom>, i: int, branches: Seq<SpecAst>)
    requires
        seq_bounds_ok(branches),
    ensures
        match sp_alt_rest(t, i, branches) {
            Result::Ok((ast, _)) => bounds_ok(ast),
            Result::Err(_) => true,
        },
    decreases t.len() - i, 5int,
{
    if 0 <= i < t.len() && t[i] is Or {
        lemma_sp_concatenation_bounds_ok(t, i + 1);
        match sp_concatenation(t, i + 1) {
            Result::Ok((node, j)) => {
                if i < j <= t.len() {
                    lemma_seq_bounds_ok_index(branches);
                    lemma_seq_bounds_ok_index(branches.push(node));
                    lemma_sp_alt_rest_bounds_ok(t, j, branches.push(node));
                }
            },
            Result::Err(_) => {},
        }
    } else {
        if branches.len() == 1 {
            lemma_seq_bounds_ok_index(branches);
        }
    }
}

proof fn lemma_sp_concatenation_bounds_ok(t: Seq<SpecAtom>, i: int)
    ensures
        match sp_concatenation(t, i) {
            Result::Ok((ast, _)) => bounds_ok(ast),
            Result::Err(_) => true,
        },
    decreases t.len() - i, 3int,
{
    lemma_sp_concat_rest_bounds_ok(t, i, Seq::empty());
}

proof fn lemma_sp_concat_rest_bounds_ok(t: Seq<SpecAtom>, i: int, nodes: Seq<SpecAst>)
    requires
        seq_bounds_ok(nodes),
    ensures
        match sp_concat_rest(t, i, nodes) {
            Result::Ok((ast, _)) => bounds_ok(ast),
            Result::Err(_) => true,
        },
    decreases t.len() - i, 2int,
{
    if 0 <= i < t.len() && !(t[i] is RParen) && !(t[i] is Or) {
        lemma_sp_repetition_bounds_ok(t, i);
        match sp_repetition(t, i) {
            Result::Ok((node, j)) => {
                if i < j <= t.len() {
                    lemma_seq_bounds_ok_index(nodes);
                    lemma_seq_bounds_ok_index(nodes.push(node));
                    lemma_sp_concat_rest_bounds_ok(t, j, nodes.push(node));
                }
            },
            Result::Err(_) => {},
        }
    } else {
        if nodes.len() == 1 {
            lemma_seq_bounds_ok_index(nodes);
        }
    }
}

proof fn lemma_sp_repetition_bounds_ok(t: Seq<SpecAtom>, i: int)
    ensures
        match sp_repetition(t, i) {
            Result::Ok((ast, _)) => bounds_ok(ast),
            Result::Err(_) => true,
        },
    decreases t.len() - i, 1int,
{
    lemma_sp_atom_bounds_ok(t, i);
    match sp_atom(t, i) {
        Result::Ok((node, j)) => {
            if i < j <= t.len() {
                lemma_sp_quants_bounds_ok(t, j, node);
            }
        },
        Result::Err(_) => {},
    }
}

proof fn lemma_sp_quants_bounds_ok(t: Seq<SpecAtom>, i: int, node: SpecAst)
    requires
        bounds_ok(node),
    ensures
        match sp_quants(t, i, node) {
            Result::Ok((ast, _)) => bounds_ok(ast),
            Result::Err(_) => true,
        },
    decreases t.len() - i, 5int,
{
    if 0 <= i < t.len() {
        match t[i] {
            SpecAtom::QuantKleene => {
                lemma_seq_bounds_ok_one(node);
                lemma_sp_quants_bounds_ok(t, i + 1, ast_star(node));
            },
            SpecAtom::QuantPlus => {
                lemma_seq_bounds_ok_one(node);
                lemma_sp_quants_bounds_ok(t, i + 1, ast_plus(node));
            },
            SpecAtom::QuantOptional => {
                lemma_seq_bounds_ok_one(node);
                lemma_sp_quants_bounds_ok(t, i + 1, ast_question(node));
            },
            SpecAtom::Repetition(mn, mx) => {
                let min = match mn {
                    Option::None => 0u32,
                    Option::Some(v) => v,
                };
                let bad = match mx {
                    Option::None => false,
                    Option::Some(m) => min > m,
                };
                if !bad {
                    lemma_seq_bounds_ok_one(node);
                    lemma_sp_quants_bounds_ok(t, i + 1, ast_rep(node, min, mx));
                }
            },
            _ => {},
        }
    }
}

proof fn lemma_sp_atom_bounds_ok(t: Seq<SpecAtom>, i: int)
    ensures
        match sp_atom(t, i) {
            Result::Ok((ast, _)) => bounds_ok(ast),
            Result::Err(_) => true,
        },
    decreases t.len() - i, 0int,
{
    if 0 <= i < t.len() {
        match t[i] {
            SpecAtom::LParen => {
                lemma_sp_alternation_bounds_ok(t, i + 1);
                match sp_alternation(t, i + 1) {
                    Result::Ok((inner, _)) => {
                        lemma_seq_bounds_ok_one(inner);
                    },
                    Result::Err(_) => {},
                }
            },
            _ => {},
        }
    }
}

/// Every tree the parser returns keeps its repetition bounds ordered, so
/// it meets the compiler's precondition on bounds.
pub proof fn lemma_parse_output_bounds_ok(t: Seq<SpecAtom>)
    ensures
        match parse_spec(t) {
            Result::Ok(ast) => bounds_ok(ast),
            Result::Err(_) => true,
        },
{
    lemma_sp_alternation_bounds_ok(t, 0);
}

} // verus!
