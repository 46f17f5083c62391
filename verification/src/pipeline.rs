//! The whole pipeline in one call: pattern text is tokenized, parsed,
//! resolved against the variable environment and compiled against the
//! class registry, strictly left to right, failing fast at the first
//! error of any stage.  The outcome is pinned by `pipeline_check`, which
//! composes the four stage models.

use vstd::prelude::*;

use crate::common::LexError;
use crate::common::ParseError;
use crate::common::TsegerError;
use crate::compiler::compile;
use crate::compiler::compile_check;
use crate::compiler::ClassRegistry;
use crate::compiler::CompilerConfig;
use crate::compiler::SpecCompileErr;
use crate::lexer::atoms_view;
use crate::lexer::lex_spec;
use crate::lexer::Lexer;
use crate::lexer::Position;
use crate::lexer::RegexAtom;
use crate::lexer::SpecAtom;
use crate::parser::atoms_kinds;
use crate::parser::lemma_parse_output_bounds_ok;
use crate::parser::parse_spec;
use crate::parser::Parser;
use crate::parser::SpecAst;
use crate::resolver::env_bounds_ok;
use crate::resolver::lemma_resolve_output_variable_free;
use crate::resolver::lemma_resolve_preserves_bounds_ok;
use crate::resolver::resolve;
use crate::resolver::resolve_spec;
use crate::resolver::SpecResolveErr;
use crate::resolver::VariableEnv;
use crate::sm::Predicate;
use crate::sm::StateMachine;

verus! {

/// The mathematical model of a whole-pipeline failure: the error of the
/// stage that refused the pattern.
pub enum SpecPipelineErr {
    Lex(LexError),
    Parse(ParseError),
    Resolve(SpecResolveErr),
    Compile(SpecCompileErr),
}

/// The composed model of the pipeline: the resolved tree that compilation
/// was asked to accept, or the first stage error.
pub open spec fn pipeline_check(
    s: Seq<char>,
    env: Seq<(Seq<char>, SpecAst)>,
    reg: Seq<(Seq<char>, Predicate)>,
    cap: u32,
    depth: int,
) -> Result<SpecAst, SpecPipelineErr> {
    match lex_spec(s) {
        Result::Err(e) => Result::Err(SpecPipelineErr::Lex(e)),
        Result::Ok(atoms) => match parse_spec(
            atoms.map_values(|pa: (SpecAtom, Position)| pa.0),
        ) {
            Result::Err(e) => Result::Err(SpecPipelineErr::Parse(e)),
            Result::Ok(ast) => match resolve_spec(ast, env, Seq::empty()) {
                Result::Err(e) => Result::Err(SpecPipelineErr::Resolve(e)),
                Result::Ok(out) => match compile_check(out, reg, cap, depth) {
                    Option::Some(e) => Result::Err(SpecPipelineErr::Compile(e)),
                    Option::None => Result::Ok(out),
                },
            },
        },
    }
}

/// Does the returned error carry exactly the modelled stage error?
pub open spec fn pipeline_err_matches(e: TsegerError, me: SpecPipelineErr) -> bool {
    match (e, me) {
        (TsegerError::LexerError(le), SpecPipelineErr::Lex(mle)) => le == mle,
        (TsegerError::ParserError(pe), SpecPipelineErr::Parse(mpe)) => pe == mpe,
        (TsegerError::ResolverError(re), SpecPipelineErr::Resolve(mre)) => re.kind == mre.kind
            && re.name@ == mre.name,
        (TsegerError::DFAError(ce), SpecPipelineErr::Compile(mce)) => ce.kind == mce.kind
            && ce.detail@ == mce.detail,
        _ => false,
    }
}

/// Compile pattern text end to end: tokenize, parse, resolve variables
/// and build the automaton.  It succeeds exactly when `pipeline_check`
/// does, and a returned automaton is well formed and ready for
/// `StateMachine::matches`.  As with `compile`, the contract does not tie
/// the automaton's accepted strings to the resolved tree's `ast_matches`
/// language; that equivalence is exercised by the test suite, not yet
/// proved.
pub fn compile_pattern(
    pattern: &str,
    env: &VariableEnv,
    registry: &ClassRegistry,
    config: &CompilerConfig,
) -> (r: Result<StateMachine, TsegerError>)
    requires
        env_bounds_ok(env@),
    ensures
        match (
            r,
            pipeline_check(
                pattern@,
                env@,
                registry@,
                config.max_repetition_expansion,
                config.max_nesting_depth as int,
            ),
        ) {
            (Result::Ok(m), Result::Ok(_)) => {
                &&& m.wf()
                &&& match m.initial_state {
                    Option::Some(s) => s.0 < m.states@.len(),
                    Option::None => false,
                }
                &&& m.accept_state is Some
            },
            (Result::Err(e), Result::Err(me)) => pipeline_err_matches(e, me),
            _ => false,
        },
{
    let ghost kinds_model = match lex_spec(pattern@) {
        Result::Ok(atoms) => atoms.map_values(|pa: (SpecAtom, Position)| pa.0),
        Result::Err(_) => Seq::empty(),
    };
    let lexer = Lexer::new(pattern);
    let mut lexed = match lexer.lex() {
        Result::Ok(v) => v,
        Result::Err(e) => {
            return Result::Err(e);
        },
    };
    let ghost orig = lexed@;
    let n = lexed.len();
    let mut atoms: Vec<RegexAtom> = Vec::new();
    let mut k: usize = 0;
    while k < n
        invariant
            n == orig.len(),
            k <= n,
            lexed@ == orig.skip(k as int),
            atoms@.len() == k,
            forall|i: int| 0 <= i < k ==> #[trigger] atoms@[i]@ == orig[i].0@,
        decreases n - k,
    {
        proof {
            assert(orig.skip(k as int)[0] == orig[k as int]);
        }
        let pa = lexed.remove(0);
        proof {
            assert(lexed@ =~= orig.skip(k as int + 1));
        }
        atoms.push(pa.0);
        k = k + 1;
    }
    proof {
        assert(atoms_kinds(atoms@) =~= atoms_view(orig).map_values(
            |pa: (SpecAtom, Position)| pa.0,
        ));
        assert(atoms_kinds(atoms@) == kinds_model);
    }
    let parser = Parser::new();
    let ast = match parser.parse_expression(&atoms) {
        Result::Ok(a) => a,
        Result::Err(e) => {
            return Result::Err(e);
        },
    };
    proof {
        lemma_parse_output_bounds_ok(kinds_model);
        lemma_resolve_output_variable_free(ast@, env@, Seq::empty());
        lemma_resolve_preserves_bounds_ok(ast@, env@, Seq::empty());
    }
    let resolved = match resolve(&ast, env) {
        Result::Ok(o) => o,
        Result::Err(e) => {
            return Result::Err(e);
        },
    };
    compile(&resolved, registry, config)
}

} // verus!
