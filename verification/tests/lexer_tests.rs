use tseger::common::LexErrorKind;
use tseger::common::TsegerError;
use tseger::lexer::BracketExpression;
use tseger::lexer::Lexer;
use tseger::lexer::Position;
use tseger::lexer::RegexAtom;
use tseger::lexer::WhitespaceKind;

#[test]
fn happy_complex_test_1() {
    let rx = r#"ab{123,}|c*(abc)\n\\\?.?\p{digits}\p{pokemons}\xBEEF[aab-cD-04-999]\x{D3AD,BEEF}#{var1} #{var2}\x{1EE7,C0DE}
\p{testing}"#;
    let lexer = Lexer::new(rx);
    let lexed = lexer.lex().unwrap();
    let mut v = lexed.iter();

    assert_eq!(v.next().unwrap().0, RegexAtom::Literal('a'));
    assert_eq!(v.next().unwrap().0, RegexAtom::Literal('b'));
    assert_eq!(v.next().unwrap().0, RegexAtom::Repetition(Some(123), None));
    assert_eq!(v.next().unwrap().0, RegexAtom::Or);
    assert_eq!(v.next().unwrap().0, RegexAtom::Literal('c'));
    assert_eq!(v.next().unwrap().0, RegexAtom::QuantKleene);
    assert_eq!(v.next().unwrap().0, RegexAtom::LParen);
    assert_eq!(v.next().unwrap().0, RegexAtom::Literal('a'));
    assert_eq!(v.next().unwrap().0, RegexAtom::Literal('b'));
    assert_eq!(v.next().unwrap().0, RegexAtom::Literal('c'));

    assert_eq!(v.next().unwrap().0, RegexAtom::RParen);
    assert_eq!(
        v.next().unwrap().0,
        RegexAtom::Whitespace(WhitespaceKind::NewLine)
    );
    assert_eq!(v.next().unwrap().0, RegexAtom::Literal('\\'));
    assert_eq!(v.next().unwrap().0, RegexAtom::Literal('?'));
    assert_eq!(v.next().unwrap().0, RegexAtom::QuantWildcard);
    assert_eq!(v.next().unwrap().0, RegexAtom::QuantOptional);
    assert_eq!(
        v.next().unwrap().0,
        RegexAtom::CharClass("digits".to_string())
    );
    assert_eq!(
        v.next().unwrap().0,
        RegexAtom::CharClass("pokemons".to_string())
    );
    assert_eq!(v.next().unwrap().0, RegexAtom::Literal('\u{BEEF}'));
    assert_eq!(
        v.next().unwrap().0,
        RegexAtom::BracketExpressions {
            ranges: vec![
                BracketExpression::Single((
                    RegexAtom::Literal('a'),
                    Position { start: 53, end: 53 }
                )),
                BracketExpression::Single((
                    RegexAtom::Literal('a'),
                    Position { start: 54, end: 54 }
                )),
                BracketExpression::Ranged((
                    RegexAtom::Range('b', 'c'),
                    Position { start: 55, end: 57 }
                )),
                BracketExpression::Ranged((
                    RegexAtom::Range('D', '0'),
                    Position { start: 58, end: 60 }
                )),
                BracketExpression::Ranged((
                    RegexAtom::Range('4', '9'),
                    Position { start: 61, end: 63 }
                )),
                BracketExpression::Single((
                    RegexAtom::Literal('9'),
                    Position { start: 64, end: 64 }
                )),
                BracketExpression::Single((
                    RegexAtom::Literal('9'),
                    Position { start: 65, end: 65 }
                )),
            ],
            negated: false
        }
    );
    assert_eq!(v.next().unwrap().0, RegexAtom::Range('\u{D3AD}', '\u{BEEF}'),);
    assert_eq!(v.next().unwrap().0, RegexAtom::Variable("var1".to_string()));
    assert_eq!(
        v.next().unwrap().0,
        RegexAtom::Whitespace(WhitespaceKind::Space)
    );
    assert_eq!(v.next().unwrap().0, RegexAtom::Variable("var2".to_string()));
    assert_eq!(v.next().unwrap().0, RegexAtom::Range('\u{1EE7}', '\u{C0DE}'));
    assert_eq!(
        v.next().unwrap().0,
        RegexAtom::Whitespace(WhitespaceKind::NewLine),
    );
    assert_eq!(
        v.next().unwrap().0,
        RegexAtom::CharClass("testing".to_string())
    );
}

#[test]
fn ascii_ranges_test() {
    let rx = r#"[^aabba-zABC-Z01-9]"#;
    let lexer = Lexer::new(rx);
    let lexed = lexer.lex().unwrap();
    let mut v = lexed.iter();

    assert_eq!(
        v.next().unwrap().0,
        RegexAtom::BracketExpressions {
            ranges: vec![
                BracketExpression::Single((RegexAtom::Literal('a'), Position { start: 2, end: 2 })),
                BracketExpression::Single((RegexAtom::Literal('a'), Position { start: 3, end: 3 })),
                BracketExpression::Single((RegexAtom::Literal('b'), Position { start: 4, end: 4 })),
                BracketExpression::Single((RegexAtom::Literal('b'), Position { start: 5, end: 5 })),
                BracketExpression::Ranged((RegexAtom::Range('a', 'z'), Position { start: 6, end: 8 })),
                BracketExpression::Single((RegexAtom::Literal('A'), Position { start: 9, end: 9 })),
                BracketExpression::Single((
                    RegexAtom::Literal('B'),
                    Position { start: 10, end: 10 }
                )),
                BracketExpression::Ranged((
                    RegexAtom::Range('C', 'Z'),
                    Position { start: 11, end: 13 }
                )),
                BracketExpression::Single((
                    RegexAtom::Literal('0'),
                    Position { start: 14, end: 14 }
                )),
                BracketExpression::Ranged((
                    RegexAtom::Range('1', '9'),
                    Position { start: 15, end: 17 }
                )),
            ],
            negated: true
        }
    );
}

#[test]
fn whitespaces_test() {
    let rx = r#"\t \n \r   \t
        "#;
    let lexer = Lexer::new(rx);
    let lexed = lexer.lex().unwrap();
    let mut v = lexed.iter();

    assert_eq!(v.next().unwrap().0, RegexAtom::Whitespace(WhitespaceKind::Tab));
    assert_eq!(
        v.next().unwrap().0,
        RegexAtom::Whitespace(WhitespaceKind::Space)
    );
    assert_eq!(
        v.next().unwrap().0,
        RegexAtom::Whitespace(WhitespaceKind::NewLine)
    );
    assert_eq!(
        v.next().unwrap().0,
        RegexAtom::Whitespace(WhitespaceKind::Space)
    );
    assert_eq!(v.next().unwrap().0, RegexAtom::Whitespace(WhitespaceKind::CR));
    assert_eq!(
        v.next().unwrap().0,
        RegexAtom::Whitespace(WhitespaceKind::Space)
    );
    assert_eq!(
        v.next().unwrap().0,
        RegexAtom::Whitespace(WhitespaceKind::Space)
    );
    assert_eq!(
        v.next().unwrap().0,
        RegexAtom::Whitespace(WhitespaceKind::Space)
    );
    assert_eq!(v.next().unwrap().0, RegexAtom::Whitespace(WhitespaceKind::Tab));
    assert_eq!(
        v.next().unwrap().0,
        RegexAtom::Whitespace(WhitespaceKind::NewLine)
    );
}

#[test]
fn unicode_range_happy_path() {
    let rx = r#"\x{21A9,21B0}\x{21B2,21B9}"#;
    let lexer = Lexer::new(rx);
    let lexed = lexer.lex().unwrap();

    let mut v = lexed.iter();

    assert_eq!(v.next().unwrap().0, RegexAtom::Range('\u{21A9}', '\u{21B0}'));

    assert_eq!(v.next().unwrap().0, RegexAtom::Range('\u{21B2}', '\u{21B9}'));
}

#[test]
fn unicode_char_happy_path() {
    let rx = r#"\x21A9\x21AA\x21AB"#;
    let lexer = Lexer::new(rx);
    let lexed = lexer.lex().unwrap();

    let mut v = lexed.iter();
    assert_eq!(v.next().unwrap().0, RegexAtom::Literal('\u{21A9}'));
    assert_eq!(v.next().unwrap().0, RegexAtom::Literal('\u{21AA}'));
    assert_eq!(v.next().unwrap().0, RegexAtom::Literal('\u{21AB}'));
}

#[test]
fn variables_happy_path() {
    let rx = r#"#{var1}#{var2}"#;
    let lexer = Lexer::new(rx);
    let lexed = lexer.lex().unwrap();

    let mut v = lexed.iter();
    assert_eq!(v.next().unwrap().0, RegexAtom::Variable("var1".to_string()));
    assert_eq!(v.next().unwrap().0, RegexAtom::Variable("var2".to_string()));
}

#[test]
fn char_classes_happy_path() {
    let rx = r#"\p{cls1}\p{cls2}"#;
    let lexer = Lexer::new(rx);
    let lexed = lexer.lex().unwrap();

    let mut v = lexed.iter();
    assert_eq!(v.next().unwrap().0, RegexAtom::CharClass("cls1".to_string()));
    assert_eq!(v.next().unwrap().0, RegexAtom::CharClass("cls2".to_string()));
}

#[test]
fn test_lex_one_symbol_quantifiers() {
    let rx = r#".*?+|"#;
    let lexer = Lexer::new(rx);
    let lexed = lexer.lex().unwrap();
    let mut v = lexed.iter();

    assert_eq!(v.next().unwrap().0, RegexAtom::QuantWildcard);
    assert_eq!(v.next().unwrap().0, RegexAtom::QuantKleene);
    assert_eq!(v.next().unwrap().0, RegexAtom::QuantOptional);
    assert_eq!(v.next().unwrap().0, RegexAtom::QuantPlus);
    assert_eq!(v.next().unwrap().0, RegexAtom::Or);
}

#[test]
fn test_escape_characters() {
    let rx = r#"\(\)\[\]\{\}\.\*\?\+\^\|\\\#\n\r\t"#;
    let lexer = Lexer::new(rx);
    let lexed = lexer.lex().unwrap();
    let mut v = lexed.iter();

    assert_eq!(v.next().unwrap().0, RegexAtom::Literal('('));
    assert_eq!(v.next().unwrap().0, RegexAtom::Literal(')'));
    assert_eq!(v.next().unwrap().0, RegexAtom::Literal('['));
    assert_eq!(v.next().unwrap().0, RegexAtom::Literal(']'));
    assert_eq!(v.next().unwrap().0, RegexAtom::Literal('{'));
    assert_eq!(v.next().unwrap().0, RegexAtom::Literal('}'));
    assert_eq!(v.next().unwrap().0, RegexAtom::Literal('.'));
    assert_eq!(v.next().unwrap().0, RegexAtom::Literal('*'));
    assert_eq!(v.next().unwrap().0, RegexAtom::Literal('?'));
    assert_eq!(v.next().unwrap().0, RegexAtom::Literal('+'));
    assert_eq!(v.next().unwrap().0, RegexAtom::Literal('^'));
    assert_eq!(v.next().unwrap().0, RegexAtom::Literal('|'));
    assert_eq!(v.next().unwrap().0, RegexAtom::Literal('\\'));
    assert_eq!(v.next().unwrap().0, RegexAtom::Literal('#'));
    assert_eq!(
        v.next().unwrap().0,
        RegexAtom::Whitespace(WhitespaceKind::NewLine)
    );
    assert_eq!(v.next().unwrap().0, RegexAtom::Whitespace(WhitespaceKind::CR));
    assert_eq!(v.next().unwrap().0, RegexAtom::Whitespace(WhitespaceKind::Tab));
}

#[test]
fn unterminated_bracket_is_reported_at_the_opening() {
    let lexer = Lexer::new("[abc");
    let err = lexer.lex().unwrap_err();
    assert_eq!(
        err,
        TsegerError::LexerError(tseger::common::LexError {
            kind: LexErrorKind::UnterminatedBracket,
            position: 0,
        })
    );
}

#[test]
fn lex_error_kinds() {
    let unterminated = Lexer::new("ab\\").lex().unwrap_err();
    assert!(matches!(
        unterminated,
        TsegerError::LexerError(e) if e.kind == LexErrorKind::UnterminatedEscape && e.position == 2
    ));

    let unknown = Lexer::new("a\\q").lex().unwrap_err();
    assert!(matches!(
        unknown,
        TsegerError::LexerError(e) if e.kind == LexErrorKind::UnknownEscape && e.position == 2
    ));

    let surrogate = Lexer::new("\\xD800").lex().unwrap_err();
    assert!(matches!(
        surrogate,
        TsegerError::LexerError(e) if e.kind == LexErrorKind::InvalidUnicodeScalar
    ));

    let bad_range = Lexer::new("\\x{D800,D900}").lex().unwrap_err();
    assert!(matches!(
        bad_range,
        TsegerError::LexerError(e) if e.kind == LexErrorKind::InvalidUnicodeScalar
    ));

    let bad_bound = Lexer::new("a{5,2}").lex().unwrap_err();
    assert!(matches!(
        bad_bound,
        TsegerError::LexerError(e) if e.kind == LexErrorKind::MalformedRepetitionBound
    ));

    let open_bound = Lexer::new("a{12").lex().unwrap_err();
    assert!(matches!(
        open_bound,
        TsegerError::LexerError(e) if e.kind == LexErrorKind::MalformedRepetitionBound && e.position == 1
    ));

    let open_variable = Lexer::new("#{name").lex().unwrap_err();
    assert!(matches!(
        open_variable,
        TsegerError::LexerError(e) if e.kind == LexErrorKind::UnterminatedNamedGroup && e.position == 0
    ));

    let open_class = Lexer::new("\\p{name").lex().unwrap_err();
    assert!(matches!(
        open_class,
        TsegerError::LexerError(e) if e.kind == LexErrorKind::UnterminatedNamedGroup && e.position == 0
    ));
}

#[test]
fn exact_count_bound_fixes_both_ends() {
    let lexed = Lexer::new("a{3}").lex().unwrap();
    assert_eq!(lexed[1].0, RegexAtom::Repetition(Some(3), Some(3)));

    let lexed = Lexer::new("a{,4}").lex().unwrap();
    assert_eq!(lexed[1].0, RegexAtom::Repetition(None, Some(4)));

    let lexed = Lexer::new("a{2,7}").lex().unwrap();
    assert_eq!(lexed[1].0, RegexAtom::Repetition(Some(2), Some(7)));
}

#[test]
fn lexing_is_deterministic() {
    let rx = "ab{2,3}|c*[x-z]\\p{digits}#{v}";
    let first = Lexer::new(rx).lex().unwrap();
    let second = Lexer::new(rx).lex().unwrap();
    assert_eq!(first, second);
}

#[test]
fn caret_outside_brackets_is_a_literal() {
    let lexed = Lexer::new("a^b").lex().unwrap();
    assert_eq!(lexed[1].0, RegexAtom::Literal('^'));
}
