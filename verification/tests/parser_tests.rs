use tseger::common::ParseErrorKind;
use tseger::common::TsegerError;
use tseger::lexer::Lexer;
use tseger::lexer::RegexAtom;
use tseger::parser::BracketExpressionItem;
use tseger::parser::Parser;
use tseger::parser::RegexAST;

fn atoms_of(pattern: &str) -> Vec<RegexAtom> {
    Lexer::new(pattern)
        .lex()
        .unwrap()
        .into_iter()
        .map(|e| e.0)
        .collect()
}

#[test]
fn test_alteration_1() {
    let lexer = Lexer::new("a|b|c");
    let parser = Parser {};

    let result = parser
        .parse_expression(&lexer.lex().unwrap().into_iter().map(|e| e.0).collect())
        .unwrap();

    assert_eq!(
        result,
        RegexAST::Alteration(vec![
            RegexAST::Literal('a'),
            RegexAST::Literal('b'),
            RegexAST::Literal('c')
        ])
    );
}

#[test]
fn quantifiers_compose_left_to_right_without_collapsing() {
    let parser = Parser::new();
    let result = parser.parse_expression(&atoms_of("a**")).unwrap();
    assert_eq!(
        result,
        RegexAST::Star(Box::new(RegexAST::Star(Box::new(RegexAST::Literal('a')))))
    );
}

#[test]
fn precedence_binds_quantifier_before_concat_before_alternation() {
    let parser = Parser::new();
    let result = parser.parse_expression(&atoms_of("ab*|c")).unwrap();
    assert_eq!(
        result,
        RegexAST::Alteration(vec![
            RegexAST::Concat(vec![
                RegexAST::Literal('a'),
                RegexAST::Star(Box::new(RegexAST::Literal('b'))),
            ]),
            RegexAST::Literal('c'),
        ])
    );
}

#[test]
fn groups_wrap_their_inner_expression() {
    let parser = Parser::new();
    let result = parser.parse_expression(&atoms_of("(a|b)c")).unwrap();
    assert_eq!(
        result,
        RegexAST::Concat(vec![
            RegexAST::Group(Box::new(RegexAST::Alteration(vec![
                RegexAST::Literal('a'),
                RegexAST::Literal('b'),
            ]))),
            RegexAST::Literal('c'),
        ])
    );
}

#[test]
fn repetition_bounds_reach_the_tree() {
    let parser = Parser::new();
    let result = parser.parse_expression(&atoms_of("a{2,5}")).unwrap();
    assert_eq!(
        result,
        RegexAST::Repetition {
            node: Box::new(RegexAST::Literal('a')),
            min: 2,
            max: Some(5),
        }
    );

    let open_ended = parser.parse_expression(&atoms_of("a{3,}")).unwrap();
    assert_eq!(
        open_ended,
        RegexAST::Repetition {
            node: Box::new(RegexAST::Literal('a')),
            min: 3,
            max: None,
        }
    );
}

#[test]
fn bracket_atoms_become_bracket_nodes() {
    let parser = Parser::new();
    let result = parser.parse_expression(&atoms_of("[ab-z]")).unwrap();
    assert_eq!(
        result,
        RegexAST::BracketExpression {
            negated: false,
            items: vec![
                BracketExpressionItem::Char('a'),
                BracketExpressionItem::Range('b', 'z'),
            ],
        }
    );
}

#[test]
fn scalar_ranges_become_single_item_brackets() {
    let parser = Parser::new();
    let result = parser
        .parse_expression(&atoms_of("\\x{0041,005A}"))
        .unwrap();
    assert_eq!(
        result,
        RegexAST::BracketExpression {
            negated: false,
            items: vec![BracketExpressionItem::Range('A', 'Z')],
        }
    );
}

#[test]
fn parse_error_kinds() {
    let parser = Parser::new();

    let empty_group = parser.parse_expression(&atoms_of("()")).unwrap_err();
    assert!(matches!(
        empty_group,
        TsegerError::ParserError(e) if e.kind == ParseErrorKind::EmptyConcatenation
    ));

    let trailing_or = parser.parse_expression(&atoms_of("a|")).unwrap_err();
    assert!(matches!(
        trailing_or,
        TsegerError::ParserError(e) if e.kind == ParseErrorKind::EmptyConcatenation
    ));

    let unclosed = parser.parse_expression(&atoms_of("(ab")).unwrap_err();
    assert!(matches!(
        unclosed,
        TsegerError::ParserError(e) if e.kind == ParseErrorKind::UnclosedGroup
    ));

    let leading_quant = parser.parse_expression(&atoms_of("*a")).unwrap_err();
    assert!(matches!(
        leading_quant,
        TsegerError::ParserError(e) if e.kind == ParseErrorKind::UnexpectedToken && e.position == 0
    ));

    let unordered_scalar_range = parser
        .parse_expression(&atoms_of("\\x{D3AD,BEEF}"))
        .unwrap_err();
    assert!(matches!(
        unordered_scalar_range,
        TsegerError::ParserError(e) if e.kind == ParseErrorKind::UnexpectedToken
    ));
}

#[test]
fn parsing_is_deterministic() {
    let parser = Parser::new();
    let first = parser.parse_expression(&atoms_of("(ab|cd){2,3}x*")).unwrap();
    let second = parser.parse_expression(&atoms_of("(ab|cd){2,3}x*")).unwrap();
    assert_eq!(first, second);
}
