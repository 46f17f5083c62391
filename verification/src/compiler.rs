//! Automaton compiler: Thompson-style construction from a resolved syntax
//! tree, one local sub-automaton per node, wired together with epsilon
//! edges.  Bounded repetition is unrolled explicitly — `min` mandatory
//! copies, then a star or `max - min` optional copies — each copy with
//! fresh states, under a configurable expansion cap.  A configurable
//! nesting depth limit bounds the recursion.
//!
//! `compile` succeeds exactly when `compile_check` finds nothing to
//! refuse: every named class is in the registry, every repetition bound is
//! within the cap, and the nesting stays within the depth limit.

use vstd::prelude::*;

use crate::common::CompileError;
use crate::common::CompileErrorKind;
use crate::common::TsegerError;
use crate::parser::bounds_ok;
use crate::parser::seq_bounds_ok;
use crate::parser::lemma_seq_bounds_ok_index;
use crate::parser::view_asts;
use crate::parser::lemma_view_asts;
use crate::parser::BracketExpressionItem;
use crate::parser::RegexAST;
use crate::parser::SpecAst;
use crate::resolver::seq_vars_free;
use crate::resolver::vars_free;
use crate::sm::pred_matches;
use crate::sm::Predicate;
use crate::sm::State;
use crate::sm::StateId;
use crate::sm::StateMachine;
use crate::sm::TransitionLabel;

verus! {

/// Compilation limits and the match mode, fixed at compile time.
/// Anchored automata require the whole input to match; search automata may
/// match anywhere in a longer haystack.
pub struct CompilerConfig {
    /// The largest admissible repetition bound; `{min,max}` with a bound
    /// beyond it is refused rather than unrolled.
    pub max_repetition_expansion: u32,
    /// The deepest admissible nesting of the syntax tree.
    pub max_nesting_depth: u32,
    /// Whole-input matching when set; search mode otherwise.
    pub anchored: bool,
}

/// The read-only registry of named character classes.  Where a name is
/// registered twice, the first registration wins.
pub struct ClassRegistry {
    entries: Vec<(String, Predicate)>,
}

impl View for ClassRegistry {
    type V = Seq<(Seq<char>, Predicate)>;

    closed spec fn view(&self) -> Seq<(Seq<char>, Predicate)> {
        self.entries@.map_values(|e: (String, Predicate)| (e.0@, e.1))
    }
}

/// The predicate registered for `name` among the entries from `k` on.
pub open spec fn class_lookup_from(
    reg: Seq<(Seq<char>, Predicate)>,
    name: Seq<char>,
    k: int,
) -> Option<Predicate>
    decreases reg.len() - k,
{
    if k < 0 || k >= reg.len() {
        Option::None
    } else if reg[k].0 == name {
        Option::Some(reg[k].1)
    } else {
        class_lookup_from(reg, name, k + 1)
    }
}

/// The predicate registered for `name`: its first registration.
pub open spec fn class_lookup(reg: Seq<(Seq<char>, Predicate)>, name: Seq<char>) -> Option<
    Predicate,
> {
    class_lookup_from(reg, name, 0)
}

impl ClassRegistry {
    /// A registry with no classes.
    pub fn new() -> (r: Self)
        ensures
            r@ == Seq::<(Seq<char>, Predicate)>::empty(),
    {
        let r = ClassRegistry { entries: Vec::new() };
        proof {
            assert(r@ =~= Seq::<(Seq<char>, Predicate)>::empty());
        }
        r
    }

    /// Register `pred` under `name` after the existing entries; an
    /// earlier registration of the same name keeps precedence.
    pub fn register(&mut self, name: String, pred: Predicate)
        ensures
            final(self)@ == old(self)@.push((name@, pred)),
    {
        let ghost pre = self.entries@;
        self.entries.push((name, pred));
        proof {
            assert(final(self)@ =~= old(self)@.push(
                (self.entries@[pre.len() as int].0@, self.entries@[pre.len() as int].1),
            ));
        }
    }

    /// The predicate registered for `name`, if any.
    fn lookup(&self, name: &String) -> (r: Option<&Predicate>)
        ensures
            match r {
                Option::Some(p) => class_lookup(self@, name@) == Option::Some(*p),
                Option::None => class_lookup(self@, name@) is None,
            },
    {
        let n = self.entries.len();
        let mut k: usize = 0;
        while k < n
            invariant
                n == self.entries@.len(),
                k <= n,
                self@.len() == n,
                class_lookup(self@, name@) == class_lookup_from(self@, name@, k as int),
            decreases n - k,
        {
            if self.entries[k].0 == *name {
                return Option::Some(&self.entries[k].1);
            }
            k = k + 1;
        }
        Option::None
    }
}

/// The mathematical model of a compiler failure.
pub struct SpecCompileErr {
    pub kind: CompileErrorKind,
    pub detail: Seq<char>,
}

/// A compiler error of kind `k` with the offending name `detail`.
pub open spec fn compile_err(k: CompileErrorKind, detail: Seq<char>) -> SpecCompileErr {
    SpecCompileErr { kind: k, detail: detail }
}

/// What compilation refuses on this tree under registry, cap and depth
/// budget: the first failure in traversal order, or nothing.
pub open spec fn compile_check(
    ast: SpecAst,
    reg: Seq<(Seq<char>, Predicate)>,
    cap: u32,
    d: int,
) -> Option<SpecCompileErr>
    decreases ast, 0int,
{
    if d <= 0 {
        Option::Some(compile_err(CompileErrorKind::PatternTooDeeplyNested, Seq::empty()))
    } else {
        match ast {
            SpecAst::CharClass(name) => match class_lookup(reg, name) {
                Option::Some(_) => Option::None,
                Option::None => Option::Some(
                    compile_err(CompileErrorKind::UnknownCharClass, name),
                ),
            },
            SpecAst::Concat(ch) => check_seq(ch, 0, reg, cap, d - 1),
            SpecAst::Alteration(ch) => check_seq(ch, 0, reg, cap, d - 1),
            SpecAst::Group(ch) => check_seq(ch, 0, reg, cap, d - 1),
            SpecAst::Star(ch) => check_seq(ch, 0, reg, cap, d - 1),
            SpecAst::Plus(ch) => check_seq(ch, 0, reg, cap, d - 1),
            SpecAst::Question(ch) => check_seq(ch, 0, reg, cap, d - 1),
            SpecAst::Repetition { node, min, max } => {
                let cnt = match max {
                    Option::None => min,
                    Option::Some(m) => m,
                };
                if cnt > cap {
                    Option::Some(compile_err(CompileErrorKind::RepetitionTooLarge, Seq::empty()))
                } else {
                    check_seq(node, 0, reg, cap, d - 1)
                }
            },
            _ => Option::None,
        }
    }
}

/// The first failure among the trees of the sequence from `k` on.
pub open spec fn check_seq(
    ch: Seq<SpecAst>,
    k: int,
    reg: Seq<(Seq<char>, Predicate)>,
    cap: u32,
    d: int,
) -> Option<SpecCompileErr>
    decreases ch, ch.len() - k,
{
    if k < 0 || k >= ch.len() {
        Option::None
    } else {
        match compile_check(ch[k], reg, cap, d) {
            Option::None => check_seq(ch, k + 1, reg, cap, d),
            Option::Some(e) => Option::Some(e),
        }
    }
}

/// A copy of the predicate that accepts exactly the same characters.
fn pred_clone(p: &Predicate) -> (r: Predicate)
    ensures
        forall|c: char| #[trigger] pred_matches(r, c) == pred_matches(*p, c),
{
    match p {
        Predicate::AnyChar => Predicate::AnyChar,
        Predicate::ExactChar(d) => Predicate::ExactChar(*d),
        Predicate::CharRange(a, b) => Predicate::CharRange(*a, *b),
        Predicate::BracketSet { negated, items } => {
            let n = items.len();
            let mut out: Vec<BracketExpressionItem> = Vec::new();
            let mut k: usize = 0;
            while k < n
                invariant
                    n == items@.len(),
                    k <= n,
                    out@ == items@.take(k as int),
                decreases n - k,
            {
                let it: BracketExpressionItem = items[k];
                proof {
                    assert(out@.push(it) =~= items@.take(k as int + 1));
                }
                out.push(it);
                k = k + 1;
            }
            proof {
                assert(out@ =~= items@);
            }
            Predicate::BracketSet { negated: *negated, items: out }
        },
    }
}

/// Append a fresh state with no edges to the arena and hand back its id.
fn fresh_state(sm: &mut StateMachine) -> (r: StateId)
    requires
        old(sm).wf(),
    ensures
        final(sm).wf(),
        final(sm).states@.len() == old(sm).states@.len() + 1,
        r.0 == old(sm).states@.len(),
        forall|i: int| 0 <= i < old(sm).states@.len() ==> final(sm).states@[i] == old(
            sm,
        ).states@[i],
        final(sm).states@[r.0 as int].transitions@.len() == 0,
        final(sm).initial_state == old(sm).initial_state,
        final(sm).accept_state == old(sm).accept_state,
        final(sm).current_state == old(sm).current_state,
{
    let id = StateId(sm.states.len());
    sm.states.push(State { id: id, transitions: Vec::new() });
    id
}

/// Add one labelled edge between two states of the arena.
fn add_edge(sm: &mut StateMachine, from: StateId, label: TransitionLabel, to: StateId)
    requires
        old(sm).wf(),
        from.0 < old(sm).states@.len(),
        to.0 < old(sm).states@.len(),
    ensures
        final(sm).wf(),
        final(sm).states@.len() == old(sm).states@.len(),
        forall|i: int| 0 <= i < old(sm).states@.len() && i != from.0 ==> final(sm).states@[i]
            == old(sm).states@[i],
        final(sm).states@[from.0 as int].id == old(sm).states@[from.0 as int].id,
        final(sm).initial_state == old(sm).initial_state,
        final(sm).accept_state == old(sm).accept_state,
        final(sm).current_state == old(sm).current_state,
{
    let i = from.0;
    sm.states[i].transitions.push((label, to));
}

/// A fresh two-state fragment whose single edge carries `label`.
fn edge_fragment(sm: &mut StateMachine, label: TransitionLabel) -> (r: (StateId, StateId))
    requires
        old(sm).wf(),
    ensures
        final(sm).wf(),
        final(sm).states@.len() >= old(sm).states@.len(),
        r.0.0 < final(sm).states@.len(),
        r.1.0 < final(sm).states@.len(),
        final(sm).initial_state == old(sm).initial_state,
        final(sm).accept_state == old(sm).accept_state,
        final(sm).current_state == old(sm).current_state,
{
    let s = fresh_state(sm);
    let a = fresh_state(sm);
    add_edge(sm, s, label, a);
    (s, a)
}

/// A fresh fragment matching only the empty input.
fn epsilon_fragment(sm: &mut StateMachine) -> (r: (StateId, StateId))
    requires
        old(sm).wf(),
    ensures
        final(sm).wf(),
        final(sm).states@.len() >= old(sm).states@.len(),
        r.0.0 < final(sm).states@.len(),
        r.1.0 < final(sm).states@.len(),
        final(sm).initial_state == old(sm).initial_state,
        final(sm).accept_state == old(sm).accept_state,
        final(sm).current_state == old(sm).current_state,
{
    edge_fragment(sm, TransitionLabel::Epsilon)
}

/// Does the executable outcome of one compilation step agree with the
/// model, and is its fragment inside the arena?
pub open spec fn compiled_matches(
    r: Result<(StateId, StateId), CompileError>,
    m: Option<SpecCompileErr>,
    sm: StateMachine,
) -> bool {
    match (r, m) {
        (Result::Ok((s, a)), Option::None) => s.0 < sm.states@.len() && a.0 < sm.states@.len(),
        (Result::Err(e), Option::Some(me)) => e.kind == me.kind && e.detail@ == me.detail,
        _ => false,
    }
}

/// One sub-automaton per node, wired by epsilon edges.
fn compile_node(
    sm: &mut StateMachine,
    ast: &RegexAST,
    reg: &ClassRegistry,
    cap: u32,
    depth_left: u32,
) -> (r: Result<(StateId, StateId), CompileError>)
    requires
        old(sm).wf(),
        vars_free(ast@),
        bounds_ok(ast@),
    ensures
        final(sm).wf(),
        final(sm).states@.len() >= old(sm).states@.len(),
        final(sm).initial_state == old(sm).initial_state,
        final(sm).accept_state == old(sm).accept_state,
        final(sm).current_state == old(sm).current_state,
        compiled_matches(r, compile_check(ast@, reg@, cap, depth_left as int), *final(sm)),
    decreases ast, 1int,
{
    if depth_left == 0 {
        return Result::Err(
            CompileError { kind: CompileErrorKind::PatternTooDeeplyNested, detail: String::new() },
        );
    }
    match ast {
        RegexAST::Literal(c) => Result::Ok(
            edge_fragment(sm, TransitionLabel::Pred(Predicate::ExactChar(*c))),
        ),
        RegexAST::Dot => Result::Ok(edge_fragment(sm, TransitionLabel::Pred(Predicate::AnyChar))),
        RegexAST::CharClass(name) => match reg.lookup(name) {
            Option::Some(p) => {
                let pred = pred_clone(p);
                Result::Ok(edge_fragment(sm, TransitionLabel::Pred(pred)))
            },
            Option::None => Result::Err(
                CompileError { kind: CompileErrorKind::UnknownCharClass, detail: name.clone() },
            ),
        },
        RegexAST::BracketExpression { negated, items } => {
            let pred = pred_clone(
                &Predicate::BracketSet { negated: *negated, items: items.clone() },
            );
            Result::Ok(edge_fragment(sm, TransitionLabel::Pred(pred)))
        },
        RegexAST::Variable(_) => {
            proof {
                assert(false);
            }
            Result::Err(
                CompileError {
                    kind: CompileErrorKind::PatternTooDeeplyNested,
                    detail: String::new(),
                },
            )
        },
        RegexAST::Concat(v) => compile_chain(sm, v, reg, cap, depth_left - 1),
        RegexAST::Group(v) => {
            proof {
                assert(decreases_to!(*ast => **v));
            }
            compile_chain_one(sm, v, reg, cap, depth_left - 1)
        },
        RegexAST::Alteration(v) => {
            let s = fresh_state(sm);
            let a = fresh_state(sm);
            let ghost ch = view_asts(v@);
            let n = v.len();
            let mut k: usize = 0;
            proof {
                lemma_view_asts(v@);
            }
            while k < n
                invariant
                    sm.wf(),
                    n == v@.len(),
                    ch == view_asts(v@),
                    ch.len() == n,
                    k <= n,
                    depth_left >= 1,
                    vars_free(ast@),
                    bounds_ok(ast@),
                    *ast == RegexAST::Alteration(*v),
                    ast@ == SpecAst::Alteration(ch),
                    s.0 < sm.states@.len(),
                    a.0 < sm.states@.len(),
                    sm.states@.len() >= old(sm).states@.len(),
                    sm.initial_state == old(sm).initial_state,
                    sm.accept_state == old(sm).accept_state,
                    sm.current_state == old(sm).current_state,
                    check_seq(ch, 0, reg@, cap, depth_left as int - 1) == check_seq(
                        ch,
                        k as int,
                        reg@,
                        cap,
                        depth_left as int - 1,
                    ),
                decreases n - k,
            {
                proof {
                    lemma_view_asts(v@);
                    assert(decreases_to!(*ast => *v));
                    assert(decreases_to!(*v => v@[k as int]));
                    lemma_seq_vf_bo(ast@, ch, k as int);
                }
                match compile_node(sm, &v[k], reg, cap, depth_left - 1) {
                    Result::Ok((bs, ba)) => {
                        add_edge(sm, s, TransitionLabel::Epsilon, bs);
                        add_edge(sm, ba, TransitionLabel::Epsilon, a);
                    },
                    Result::Err(e) => {
                        return Result::Err(e);
                    },
                }
                k = k + 1;
            }
            Result::Ok((s, a))
        },
        RegexAST::Star(v) => {
            proof {
                assert(decreases_to!(*ast => **v));
            }
            match compile_chain_one(sm, v, reg, cap, depth_left - 1) {
                Result::Ok((is, ia)) => {
                    let s = fresh_state(sm);
                    let a = fresh_state(sm);
                    add_edge(sm, s, TransitionLabel::Epsilon, is);
                    add_edge(sm, s, TransitionLabel::Epsilon, a);
                    add_edge(sm, ia, TransitionLabel::Epsilon, is);
                    add_edge(sm, ia, TransitionLabel::Epsilon, a);
                    Result::Ok((s, a))
                },
                Result::Err(e) => Result::Err(e),
            }
        },
        RegexAST::Plus(v) => {
            proof {
                assert(decreases_to!(*ast => **v));
            }
            match compile_chain_one(sm, v, reg, cap, depth_left - 1) {
                Result::Ok((fs, fa)) => {
                    match compile_chain_one(sm, v, reg, cap, depth_left - 1) {
                        Result::Ok((is, ia)) => {
                            let s = fresh_state(sm);
                            let a = fresh_state(sm);
                            add_edge(sm, s, TransitionLabel::Epsilon, is);
                            add_edge(sm, s, TransitionLabel::Epsilon, a);
                            add_edge(sm, ia, TransitionLabel::Epsilon, is);
                            add_edge(sm, ia, TransitionLabel::Epsilon, a);
                            add_edge(sm, fa, TransitionLabel::Epsilon, s);
                            Result::Ok((fs, a))
                        },
                        Result::Err(e) => Result::Err(e),
                    }
                },
                Result::Err(e) => Result::Err(e),
            }
        },
        RegexAST::Question(v) => {
            proof {
                assert(decreases_to!(*ast => **v));
            }
            match compile_chain_one(sm, v, reg, cap, depth_left - 1) {
                Result::Ok((is, ia)) => {
                    let s = fresh_state(sm);
                    let a = fresh_state(sm);
                    add_edge(sm, s, TransitionLabel::Epsilon, is);
                    add_edge(sm, s, TransitionLabel::Epsilon, a);
                    add_edge(sm, ia, TransitionLabel::Epsilon, a);
                    Result::Ok((s, a))
                },
                Result::Err(e) => Result::Err(e),
            }
        },
        RegexAST::Repetition { node, min, max } => {
            let cnt: u32 = match max {
                Option::None => *min,
                Option::Some(m) => *m,
            };
            if cnt > cap {
                return Result::Err(
                    CompileError {
                        kind: CompileErrorKind::RepetitionTooLarge,
                        detail: String::new(),
                    },
                );
            }
            let (s0, mut cur) = epsilon_fragment(sm);
            let mut i: u32 = 0;
            while i < *min
                invariant
                    sm.wf(),
                    i <= *min,
                    depth_left >= 1,
                    vars_free(ast@),
                    bounds_ok(ast@),
                    *ast == (RegexAST::Repetition { node: *node, min: *min, max: *max }),
                    ast@ == (SpecAst::Repetition { node: seq![(**node)@], min: *min, max: *max }),
                    (match *max {
                        Option::None => *min,
                        Option::Some(m) => m,
                    }) <= cap,
                    check_seq(seq![(**node)@], 0, reg@, cap, depth_left as int - 1) is None
                        || i == 0,
                    s0.0 < sm.states@.len(),
                    cur.0 < sm.states@.len(),
                    sm.states@.len() >= old(sm).states@.len(),
                    sm.initial_state == old(sm).initial_state,
                    sm.accept_state == old(sm).accept_state,
                    sm.current_state == old(sm).current_state,
                decreases *min - i,
            {
                proof {
                    assert(decreases_to!(*ast => **node));
                }
                match compile_chain_one(sm, node, reg, cap, depth_left - 1) {
                    Result::Ok((fs, fa)) => {
                        add_edge(sm, cur, TransitionLabel::Epsilon, fs);
                        cur = fa;
                    },
                    Result::Err(e) => {
                        return Result::Err(e);
                    },
                }
                i = i + 1;
            }
            match max {
                Option::None => {
                    // Unbounded tail: a star over one more fresh copy.
                    match compile_chain_one(sm, node, reg, cap, depth_left - 1) {
                        Result::Ok((is, ia)) => {
                            let s = fresh_state(sm);
                            let a = fresh_state(sm);
                            add_edge(sm, s, TransitionLabel::Epsilon, is);
                            add_edge(sm, s, TransitionLabel::Epsilon, a);
                            add_edge(sm, ia, TransitionLabel::Epsilon, is);
                            add_edge(sm, ia, TransitionLabel::Epsilon, a);
                            add_edge(sm, cur, TransitionLabel::Epsilon, s);
                            Result::Ok((s0, a))
                        },
                        Result::Err(e) => Result::Err(e),
                    }
                },
                Option::Some(m) => {
                    let extra: u32 = *m - *min;
                    let mut i2: u32 = 0;
                    while i2 < extra
                        invariant
                            sm.wf(),
                            i2 <= extra,
                            depth_left >= 1,
                            extra == *m - *min,
                            vars_free(ast@),
                            bounds_ok(ast@),
                            *ast == (RegexAST::Repetition { node: *node, min: *min, max: *max }),
                            (match *max {
                                Option::None => *min,
                                Option::Some(m) => m,
                            }) <= cap,
                            ast@ == (SpecAst::Repetition {
                                node: seq![(**node)@],
                                min: *min,
                                max: *max,
                            }),
                            check_seq(seq![(**node)@], 0, reg@, cap, depth_left as int - 1)
                                is None || (i2 == 0 && *min == 0),
                            s0.0 < sm.states@.len(),
                            cur.0 < sm.states@.len(),
                            sm.states@.len() >= old(sm).states@.len(),
                            sm.initial_state == old(sm).initial_state,
                            sm.accept_state == old(sm).accept_state,
                            sm.current_state == old(sm).current_state,
                        decreases extra - i2,
                    {
                        proof {
                            assert(decreases_to!(*ast => **node));
                        }
                        match compile_chain_one(sm, node, reg, cap, depth_left - 1) {
                            Result::Ok((is, ia)) => {
                                let s = fresh_state(sm);
                                let a = fresh_state(sm);
                                add_edge(sm, s, TransitionLabel::Epsilon, is);
                                add_edge(sm, s, TransitionLabel::Epsilon, a);
                                add_edge(sm, ia, TransitionLabel::Epsilon, a);
                                add_edge(sm, cur, TransitionLabel::Epsilon, s);
                                cur = a;
                            },
                            Result::Err(e) => {
                                return Result::Err(e);
                            },
                        }
                        i2 = i2 + 1;
                    }
                    if *min == 0 && extra == 0 {
                        // No copy was compiled: the checks must still run,
                        // so success is owed exactly when the node passes.
                        match compile_chain_one(sm, node, reg, cap, depth_left - 1) {
                            Result::Ok((_, _)) => Result::Ok((s0, cur)),
                            Result::Err(e) => Result::Err(e),
                        }
                    } else {
                        Result::Ok((s0, cur))
                    }
                },
            }
        },
    }
}

proof fn lemma_seq_vf_bo(ast: SpecAst, ch: Seq<SpecAst>, k: int)
    requires
        vars_free(ast),
        bounds_ok(ast),
        0 <= k < ch.len(),
        ast == SpecAst::Alteration(ch) || ast == SpecAst::Concat(ch) || ast == SpecAst::Group(ch)
            || ast == SpecAst::Star(ch) || ast == SpecAst::Plus(ch) || ast
            == SpecAst::Question(ch),
    ensures
        vars_free(ch[k]),
        bounds_ok(ch[k]),
{
    crate::resolver::lemma_seq_vars_free_index(ch);
    lemma_seq_bounds_ok_index(ch);
}

/// The children compiled in order and chained accept-to-start; an empty
/// list yields a fragment matching only the empty input.
fn compile_chain(
    sm: &mut StateMachine,
    children: &Vec<RegexAST>,
    reg: &ClassRegistry,
    cap: u32,
    d: u32,
) -> (r: Result<(StateId, StateId), CompileError>)
    requires
        old(sm).wf(),
        seq_vars_free(view_asts(children@)),
        seq_bounds_ok(view_asts(children@)),
    ensures
        final(sm).wf(),
        final(sm).states@.len() >= old(sm).states@.len(),
        final(sm).initial_state == old(sm).initial_state,
        final(sm).accept_state == old(sm).accept_state,
        final(sm).current_state == old(sm).current_state,
        compiled_matches(
            r,
            check_seq(view_asts(children@), 0, reg@, cap, d as int),
            *final(sm),
        ),
    decreases children@, 0int,
{
    let ghost ch = view_asts(children@);
    let n = children.len();
    let (s0, mut cur) = epsilon_fragment(sm);
    let mut k: usize = 0;
    proof {
        lemma_view_asts(children@);
    }
    while k < n
        invariant
            sm.wf(),
            n == children@.len(),
            ch == view_asts(children@),
            ch.len() == n,
            k <= n,
            seq_vars_free(ch),
            seq_bounds_ok(ch),
            s0.0 < sm.states@.len(),
            cur.0 < sm.states@.len(),
            sm.states@.len() >= old(sm).states@.len(),
            sm.initial_state == old(sm).initial_state,
            sm.accept_state == old(sm).accept_state,
            sm.current_state == old(sm).current_state,
            check_seq(ch, 0, reg@, cap, d as int) == check_seq(ch, k as int, reg@, cap, d as int),
        decreases n - k,
    {
        proof {
            lemma_view_asts(children@);
            assert(decreases_to!(children@ => children@[k as int]));
            crate::resolver::lemma_seq_vars_free_index(ch);
            lemma_seq_bounds_ok_index(ch);
        }
        match compile_node(sm, &children[k], reg, cap, d) {
            Result::Ok((fs, fa)) => {
                add_edge(sm, cur, TransitionLabel::Epsilon, fs);
                cur = fa;
            },
            Result::Err(e) => {
                return Result::Err(e);
            },
        }
        k = k + 1;
    }
    Result::Ok((s0, cur))
}

/// The chain of one boxed child, used by the unary node shapes.
fn compile_chain_one(
    sm: &mut StateMachine,
    child: &Box<RegexAST>,
    reg: &ClassRegistry,
    cap: u32,
    d: u32,
) -> (r: Result<(StateId, StateId), CompileError>)
    requires
        old(sm).wf(),
        vars_free((**child)@),
        bounds_ok((**child)@),
    ensures
        final(sm).wf(),
        final(sm).states@.len() >= old(sm).states@.len(),
        final(sm).initial_state == old(sm).initial_state,
        final(sm).accept_state == old(sm).accept_state,
        final(sm).current_state == old(sm).current_state,
        compiled_matches(
            r,
            check_seq(seq![(**child)@], 0, reg@, cap, d as int),
            *final(sm),
        ),
    decreases (**child), 2int,
{
    proof {
        let ch = seq![(**child)@];
        assert(ch[0] == (**child)@);
        assert(check_seq(ch, 1, reg@, cap, d as int) is None);
    }
    match compile_node(sm, child, reg, cap, d) {
        Result::Ok(frag) => Result::Ok(frag),
        Result::Err(e) => Result::Err(e),
    }
}

/// The whole pipeline's final stage: a resolved tree compiled into an
/// immutable automaton.  It succeeds exactly when `compile_check` refuses
/// nothing; in search mode the automaton is wrapped in any-symbol skip
/// loops so the pattern may match anywhere in a longer haystack.
///
/// The contract fixes when compilation succeeds, the exact error
/// otherwise, and that a returned automaton is well formed and ready for
/// `StateMachine::matches`.  Which strings that automaton accepts is the
/// construction's intent — `ast_matches` states the tree's language and
/// `sm_accepts` the automaton's — but the equivalence of the two over this
/// construction is not part of the contract: it is exercised by the test
/// suite, not yet proved.
pub fn compile(ast: &RegexAST, registry: &ClassRegistry, config: &CompilerConfig) -> (r: Result<
    StateMachine,
    TsegerError,
>)
    requires
        vars_free(ast@),
        bounds_ok(ast@),
    ensures
        match (
            r,
            compile_check(
                ast@,
                registry@,
                config.max_repetition_expansion,
                config.max_nesting_depth as int,
            ),
        ) {
            (Result::Ok(m), Option::None) => {
                &&& m.wf()
                &&& match m.initial_state {
                    Option::Some(s) => s.0 < m.states@.len(),
                    Option::None => false,
                }
                &&& m.accept_state is Some
            },
            (Result::Err(TsegerError::DFAError(e)), Option::Some(me)) => e.kind == me.kind
                && e.detail@ == me.detail,
            _ => false,
        },
{
    let mut sm = StateMachine::new();
    proof {
        assert(sm.wf());
    }
    match compile_node(
        &mut sm,
        ast,
        registry,
        config.max_repetition_expansion,
        config.max_nesting_depth,
    ) {
        Result::Ok((fs, fa)) => {
            if config.anchored {
                sm.set_initial(fs);
                sm.set_accept(fa);
            } else {
                let s0 = fresh_state(&mut sm);
                add_edge(&mut sm, s0, TransitionLabel::Pred(Predicate::AnyChar), s0);
                add_edge(&mut sm, s0, TransitionLabel::Epsilon, fs);
                let a0 = fresh_state(&mut sm);
                add_edge(&mut sm, a0, TransitionLabel::Pred(Predicate::AnyChar), a0);
                add_edge(&mut sm, fa, TransitionLabel::Epsilon, a0);
                sm.set_initial(s0);
                sm.set_accept(a0);
            }
            Result::Ok(sm)
        },
        Result::Err(e) => Result::Err(TsegerError::DFAError(e)),
    }
}

} // verus!
