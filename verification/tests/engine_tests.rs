use tseger::common::CompileErrorKind;
use tseger::common::ResolveErrorKind;
use tseger::common::TsegerError;
use tseger::compiler::compile;
use tseger::compiler::ClassRegistry;
use tseger::compiler::CompilerConfig;
use tseger::lexer::Lexer;
use tseger::lexer::RegexAtom;
use tseger::parser::Parser;
use tseger::parser::RegexAST;
use tseger::resolver::resolve;
use tseger::resolver::VariableEnv;
use tseger::sm::Predicate;
use tseger::sm::State;
use tseger::sm::StateId;
use tseger::sm::StateMachine;
use tseger::sm::Symbol;

#[test]
fn test_sm_1() {
    let mut sm = StateMachine::new();
    let mut s1 = State::new();
    let s1_id = s1.id;
    let mut s2 = State::new();
    let s2_id = s2.id;
    let s3 = State::new();
    let s3_id = s3.id;

    s1.add_transition(Symbol('a'), s2_id);
    s1.add_transition(Symbol('b'), s3_id);
    s2.add_transition(Symbol('c'), s3_id);
    sm.add_state(s1);
    sm.add_state(s2);
    sm.add_state(s3);

    sm.set_initial(s1_id);
    sm.set_accept(s3_id);

    let mut events = "ac".chars();

    loop {
        let e = events.next();
        if e == Option::None {
            break;
        }
        if !sm.process(Symbol(e.unwrap())) {
        } else {
            break;
        }
    }

    assert_eq!("1", "1");
}

fn parse_pattern(pattern: &str) -> RegexAST {
    let lexer = Lexer::new(pattern);
    let atoms: Vec<RegexAtom> = lexer.lex().unwrap().into_iter().map(|e| e.0).collect();
    Parser::new().parse_expression(&atoms).unwrap()
}

fn build(pattern: &str, anchored: bool) -> StateMachine {
    let ast = parse_pattern(pattern);
    let env = VariableEnv::new();
    let resolved = resolve(&ast, &env).unwrap();
    let registry = ClassRegistry::new();
    let config = CompilerConfig {
        max_repetition_expansion: 1000,
        max_nesting_depth: 100,
        anchored,
    };
    compile(&resolved, &registry, &config).unwrap()
}

fn accepts(pattern: &str, input: &str) -> bool {
    build(pattern, true).matches(input)
}

#[test]
fn star_concatenation_scenario() {
    let m = build("a*b", true);
    assert!(m.matches("b"));
    assert!(m.matches("ab"));
    assert!(m.matches("aaab"));
    assert!(!m.matches("a"));
    assert!(!m.matches("ba"));
    assert!(!m.matches(""));
}

#[test]
fn bounded_repetition_scenario() {
    let m = build("(ab|cd){2,3}", true);
    assert!(m.matches("abab"));
    assert!(m.matches("abcd"));
    assert!(m.matches("cdcdab"));
    assert!(!m.matches("ab"));
    assert!(!m.matches("abababcd"));
}

#[test]
fn negated_bracket_scenario() {
    let m = build("[^a-c]", true);
    assert!(m.matches("d"));
    assert!(m.matches("Z"));
    assert!(m.matches("1"));
    assert!(!m.matches("a"));
    assert!(!m.matches("b"));
    assert!(!m.matches("c"));
}

#[test]
fn scalar_range_scenario() {
    let m = build("\\x{0041,005A}", true);
    assert!(m.matches("M"));
    assert!(!m.matches("m"));
    assert!(!m.matches("1"));
}

#[test]
fn bracket_negation_partitions_every_character() {
    let plain = build("[ax-z]", true);
    let negated = build("[^ax-z]", true);
    for c in ['a', 'b', 'w', 'x', 'y', 'z', '0', '^'] {
        let s = c.to_string();
        assert_ne!(plain.matches(&s), negated.matches(&s));
    }
}

#[test]
fn alternation_is_order_independent() {
    let left = build("ab|cd|x*", true);
    let right = build("x*|cd|ab", true);
    for input in ["ab", "cd", "", "x", "xxx", "abcd", "a", "d"] {
        assert_eq!(left.matches(input), right.matches(input));
    }
}

#[test]
fn quantifier_bounds_accept_exactly_the_counted_repeats() {
    let m = build("(ab){2,4}", true);
    assert!(!m.matches(""));
    assert!(!m.matches("ab"));
    assert!(m.matches("abab"));
    assert!(m.matches("ababab"));
    assert!(m.matches("abababab"));
    assert!(!m.matches("ababababab"));

    let exact = build("a{3}", true);
    assert!(!exact.matches("aa"));
    assert!(exact.matches("aaa"));
    assert!(!exact.matches("aaaa"));

    let at_least = build("a{2,}", true);
    assert!(!at_least.matches("a"));
    assert!(at_least.matches("aa"));
    assert!(at_least.matches("aaaaaa"));
}

#[test]
fn plus_question_and_dot() {
    assert!(accepts("a+", "aaa"));
    assert!(!accepts("a+", ""));
    assert!(accepts("ab?", "a"));
    assert!(accepts("ab?", "ab"));
    assert!(!accepts("ab?", "abb"));
    assert!(accepts(".", "x"));
    assert!(!accepts(".", ""));
    assert!(accepts("a.c", "abc"));
}

#[test]
fn search_mode_matches_anywhere() {
    let m = build("ab", false);
    assert!(m.matches("ab"));
    assert!(m.matches("xxabyy"));
    assert!(m.matches("xxab"));
    assert!(m.matches("abyy"));
    assert!(!m.matches("axb"));

    let anchored = build("ab", true);
    assert!(!anchored.matches("xxabyy"));
}

#[test]
fn named_classes_come_from_the_registry() {
    let ast = parse_pattern("\\p{digit}+");
    let env = VariableEnv::new();
    let resolved = resolve(&ast, &env).unwrap();
    let mut registry = ClassRegistry::new();
    registry.register("digit".to_string(), Predicate::CharRange('0', '9'));
    let config = CompilerConfig {
        max_repetition_expansion: 1000,
        max_nesting_depth: 100,
        anchored: true,
    };
    let m = compile(&resolved, &registry, &config).unwrap();
    assert!(m.matches("2024"));
    assert!(!m.matches("20x4"));
    assert!(!m.matches(""));
}

#[test]
fn unknown_class_is_a_compile_error() {
    let ast = parse_pattern("\\p{digits}");
    let env = VariableEnv::new();
    let resolved = resolve(&ast, &env).unwrap();
    let registry = ClassRegistry::new();
    let config = CompilerConfig {
        max_repetition_expansion: 1000,
        max_nesting_depth: 100,
        anchored: true,
    };
    let err = compile(&resolved, &registry, &config).unwrap_err();
    assert!(matches!(
        err,
        TsegerError::DFAError(e)
            if e.kind == CompileErrorKind::UnknownCharClass && e.detail == "digits"
    ));
}

#[test]
fn oversized_repetition_is_a_compile_error() {
    let ast = parse_pattern("a{2,10}");
    let env = VariableEnv::new();
    let resolved = resolve(&ast, &env).unwrap();
    let registry = ClassRegistry::new();
    let config = CompilerConfig {
        max_repetition_expansion: 5,
        max_nesting_depth: 100,
        anchored: true,
    };
    let err = compile(&resolved, &registry, &config).unwrap_err();
    assert!(matches!(
        err,
        TsegerError::DFAError(e) if e.kind == CompileErrorKind::RepetitionTooLarge
    ));
}

#[test]
fn deep_nesting_is_a_compile_error() {
    let ast = parse_pattern("((((a))))");
    let env = VariableEnv::new();
    let resolved = resolve(&ast, &env).unwrap();
    let registry = ClassRegistry::new();
    let config = CompilerConfig {
        max_repetition_expansion: 1000,
        max_nesting_depth: 3,
        anchored: true,
    };
    let err = compile(&resolved, &registry, &config).unwrap_err();
    assert!(matches!(
        err,
        TsegerError::DFAError(e) if e.kind == CompileErrorKind::PatternTooDeeplyNested
    ));
}

#[test]
fn variables_expand_to_their_bound_patterns() {
    let ast = parse_pattern("#{x}|q");
    let mut env = VariableEnv::new();
    env.bind("x".to_string(), parse_pattern("ab+"));
    let resolved = resolve(&ast, &env).unwrap();
    let registry = ClassRegistry::new();
    let config = CompilerConfig {
        max_repetition_expansion: 1000,
        max_nesting_depth: 100,
        anchored: true,
    };
    let m = compile(&resolved, &registry, &config).unwrap();
    assert!(m.matches("abbb"));
    assert!(m.matches("q"));
    assert!(!m.matches("x"));
}

#[test]
fn cyclic_variable_is_reported_under_its_name() {
    let ast = parse_pattern("#{x}");
    let mut env = VariableEnv::new();
    env.bind("x".to_string(), parse_pattern("a#{y}"));
    env.bind("y".to_string(), parse_pattern("#{x}b"));
    let err = resolve(&ast, &env).unwrap_err();
    assert!(matches!(
        err,
        TsegerError::ResolverError(e)
            if e.kind == ResolveErrorKind::CyclicVariable && e.name == "x"
    ));
}

#[test]
fn unknown_variable_is_reported_under_its_name() {
    let ast = parse_pattern("#{missing}");
    let env = VariableEnv::new();
    let err = resolve(&ast, &env).unwrap_err();
    assert!(matches!(
        err,
        TsegerError::ResolverError(e)
            if e.kind == ResolveErrorKind::UnknownVariable && e.name == "missing"
    ));
}

#[test]
fn resolving_a_variable_free_tree_returns_it_unchanged() {
    let ast = parse_pattern("(ab|cd)*x{2,3}[p-q]");
    let env = VariableEnv::new();
    let resolved = resolve(&ast, &env).unwrap();
    assert_eq!(resolved, ast);
}

#[test]
fn whitespace_atoms_match_their_characters() {
    assert!(accepts("a b", "a b"));
    assert!(accepts("\\t", "\t"));
    assert!(!accepts("\\n", " "));
}

#[test]
fn resolution_is_idempotent() {
    let ast = parse_pattern("#{x}(y|z)*");
    let mut env = VariableEnv::new();
    env.bind("x".to_string(), parse_pattern("a{1,2}"));
    let once = resolve(&ast, &env).unwrap();
    let twice = resolve(&once, &env).unwrap();
    assert_eq!(twice, once);
}

#[test]
fn empty_pattern_is_refused() {
    let atoms: Vec<RegexAtom> = Vec::new();
    let err = Parser::new().parse_expression(&atoms).unwrap_err();
    assert!(matches!(err, TsegerError::ParserError(_)));
}

#[test]
fn one_call_pipeline_builds_a_matching_automaton() {
    let mut env = VariableEnv::new();
    env.bind("word".to_string(), parse_pattern("[a-z]+"));
    let registry = ClassRegistry::new();
    let config = CompilerConfig {
        max_repetition_expansion: 1000,
        max_nesting_depth: 100,
        anchored: true,
    };
    let m = tseger::pipeline::compile_pattern("#{word}(-#{word})?", &env, &registry, &config)
        .unwrap();
    assert!(m.matches("left-right"));
    assert!(m.matches("solo"));
    assert!(!m.matches("-x"));
    assert!(!m.matches("a-b-c"));

    let err = tseger::pipeline::compile_pattern("[abc", &env, &registry, &config).unwrap_err();
    assert!(matches!(err, TsegerError::LexerError(_)));
}

#[test]
fn repeated_transition_for_a_symbol_overwrites_the_target() {
    let mut s = State::new();
    let first = StateId(101);
    let second = StateId(202);
    s.add_transition(Symbol('a'), first);
    s.add_transition(Symbol('b'), StateId(303));
    s.add_transition(Symbol('a'), second);
    assert_eq!(s.next(Symbol('a')), second);
    assert_eq!(s.next(Symbol('b')), StateId(303));
}

#[test]
fn a_walk_without_a_matching_transition_rejects_in_place() {
    let mut sm = StateMachine::new();
    let mut s1 = State::new();
    let s1_id = s1.id;
    let s2 = State::new();
    let s2_id = s2.id;
    s1.add_transition(Symbol('a'), s2_id);
    sm.add_state(s1);
    sm.add_state(s2);
    sm.set_initial(s1_id);
    sm.set_accept(s2_id);

    assert!(!sm.process(Symbol('z')));
    assert_eq!(sm.current_state, Some(s1_id));
    assert!(sm.process(Symbol('a')));
    assert_eq!(sm.current_state, Some(s2_id));
}
