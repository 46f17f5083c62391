//! Variable resolver: rewrites `Variable` nodes into copies of externally
//! supplied sub-patterns.
//!
//! Resolution keeps an explicit stack of the names currently being
//! expanded; meeting a name already on that stack fails with a cyclic
//! variable error instead of recursing unboundedly, and a name absent from
//! the environment fails as unknown.  The whole behaviour of `resolve` is
//! pinned by the specification function `resolve_spec`.

use vstd::prelude::*;
use vstd::set_lib::lemma_len_subset;

use crate::common::ResolveError;
use crate::common::ResolveErrorKind;
use crate::common::TsegerError;
use crate::parser::bounds_ok;
use crate::parser::seq_bounds_ok;
use crate::parser::lemma_seq_bounds_ok_index;
use crate::parser::view_asts;
use crate::parser::lemma_view_asts;
use crate::parser::lemma_view_asts_push;
use crate::parser::RegexAST;
use crate::parser::SpecAst;

verus! {

/// The mathematical model of a resolver failure.
pub struct SpecResolveErr {
    pub kind: ResolveErrorKind,
    pub name: Seq<char>,
}

/// A resolver error of kind `k` for the variable `name`.
pub open spec fn resolve_err(k: ResolveErrorKind, name: Seq<char>) -> SpecResolveErr {
    SpecResolveErr { kind: k, name: name }
}

/// The read-only variable environment: an ordered list of bindings from a
/// name to a syntax tree.  Where a name is bound twice, the first binding
/// wins.
pub struct VariableEnv {
    entries: Vec<(String, RegexAST)>,
}

impl View for VariableEnv {
    type V = Seq<(Seq<char>, SpecAst)>;

    closed spec fn view(&self) -> Seq<(Seq<char>, SpecAst)> {
        self.entries@.map_values(|e: (String, RegexAST)| (e.0@, e.1@))
    }
}

/// The binding of `name` among the entries from index `k` on.
pub open spec fn env_lookup_from(env: Seq<(Seq<char>, SpecAst)>, name: Seq<char>, k: int) -> Option<
    SpecAst,
>
    decreases env.len() - k,
{
    if k < 0 || k >= env.len() {
        Option::None
    } else if env[k].0 == name {
        Option::Some(env[k].1)
    } else {
        env_lookup_from(env, name, k + 1)
    }
}

/// The binding of `name`: its first binding in the environment.
pub open spec fn env_lookup(env: Seq<(Seq<char>, SpecAst)>, name: Seq<char>) -> Option<SpecAst> {
    env_lookup_from(env, name, 0)
}

/// The name sequence of a stack of strings.
pub open spec fn names_view(v: Seq<String>) -> Seq<Seq<char>> {
    v.map_values(|s: String| s@)
}

/// Does the tree hold no variable node?
pub open spec fn vars_free(ast: SpecAst) -> bool
    decreases ast, 0int,
{
    match ast {
        SpecAst::Variable(_) => false,
        SpecAst::Concat(ch) => seq_vars_free(ch),
        SpecAst::Alteration(ch) => seq_vars_free(ch),
        SpecAst::Group(ch) => seq_vars_free(ch),
        SpecAst::Star(ch) => seq_vars_free(ch),
        SpecAst::Plus(ch) => seq_vars_free(ch),
        SpecAst::Question(ch) => seq_vars_free(ch),
        SpecAst::Repetition { node, min, max } => seq_vars_free(node),
        _ => true,
    }
}

/// Does every tree of the sequence hold no variable node?
pub open spec fn seq_vars_free(ch: Seq<SpecAst>) -> bool
    decreases ch, 1int,
{
    if ch.len() == 0 {
        true
    } else {
        vars_free(ch[0]) && seq_vars_free(ch.drop_first())
    }
}

/// `seq_vars_free` holds exactly when every element is variable-free.
pub proof fn lemma_seq_vars_free_index(ch: Seq<SpecAst>)
    ensures
        seq_vars_free(ch) <==> (forall|i: int| 0 <= i < ch.len() ==> vars_free(#[trigger] ch[i])),
    decreases ch.len(),
{
    if ch.len() > 0 {
        lemma_seq_vars_free_index(ch.drop_first());
        assert forall|i: int| 0 <= i < ch.len() && seq_vars_free(ch) implies vars_free(
            #[trigger] ch[i],
        ) by {
            if i > 0 {
                assert(ch.drop_first()[i - 1] == ch[i]);
            }
        }
        if forall|i: int| 0 <= i < ch.len() ==> vars_free(#[trigger] ch[i]) {
            assert forall|i: int| 0 <= i < ch.drop_first().len() implies vars_free(
                #[trigger] ch.drop_first()[i],
            ) by {
                assert(ch.drop_first()[i] == ch[i + 1]);
            }
        }
    }
}

/// The tree with every variable substituted by its binding, expansion
/// tracked by `stack`: a name already being expanded is cyclic, a name
/// without a binding unknown.
pub open spec fn resolve_spec(
    ast: SpecAst,
    env: Seq<(Seq<char>, SpecAst)>,
    stack: Seq<Seq<char>>,
) -> Result<SpecAst, SpecResolveErr>
    decreases env.len() - stack.len(), ast, 0int,
{
    match ast {
        SpecAst::Literal(c) => Result::Ok(SpecAst::Literal(c)),
        SpecAst::Dot => Result::Ok(SpecAst::Dot),
        SpecAst::CharClass(n) => Result::Ok(SpecAst::CharClass(n)),
        SpecAst::BracketExpression { negated, items } => Result::Ok(
            SpecAst::BracketExpression { negated, items },
        ),
        SpecAst::Concat(ch) => match resolve_seq(ch, 0, Seq::empty(), env, stack) {
            Result::Ok(rs) => Result::Ok(SpecAst::Concat(rs)),
            Result::Err(e) => Result::Err(e),
        },
        SpecAst::Alteration(ch) => match resolve_seq(ch, 0, Seq::empty(), env, stack) {
            Result::Ok(rs) => Result::Ok(SpecAst::Alteration(rs)),
            Result::Err(e) => Result::Err(e),
        },
        SpecAst::Group(ch) => match resolve_seq(ch, 0, Seq::empty(), env, stack) {
            Result::Ok(rs) => Result::Ok(SpecAst::Group(rs)),
            Result::Err(e) => Result::Err(e),
        },
        SpecAst::Star(ch) => match resolve_seq(ch, 0, Seq::empty(), env, stack) {
            Result::Ok(rs) => Result::Ok(SpecAst::Star(rs)),
            Result::Err(e) => Result::Err(e),
        },
        SpecAst::Plus(ch) => match resolve_seq(ch, 0, Seq::empty(), env, stack) {
            Result::Ok(rs) => Result::Ok(SpecAst::Plus(rs)),
            Result::Err(e) => Result::Err(e),
        },
        SpecAst::Question(ch) => match resolve_seq(ch, 0, Seq::empty(), env, stack) {
            Result::Ok(rs) => Result::Ok(SpecAst::Question(rs)),
            Result::Err(e) => Result::Err(e),
        },
        SpecAst::Repetition { node, min, max } => match resolve_seq(node, 0, Seq::empty(), env, stack) {
            Result::Ok(rs) => Result::Ok(SpecAst::Repetition { node: rs, min, max }),
            Result::Err(e) => Result::Err(e),
        },
        SpecAst::Variable(name) => {
            if stack.contains(name) {
                Result::Err(resolve_err(ResolveErrorKind::CyclicVariable, name))
            } else {
                match env_lookup(env, name) {
                    Option::None => Result::Err(resolve_err(ResolveErrorKind::UnknownVariable, name)),
                    Option::Some(bound) => if stack.len() < env.len() {
                        resolve_spec(bound, env, stack.push(name))
                    } else {
                        Result::Err(resolve_err(ResolveErrorKind::CyclicVariable, name))
                    },
                }
            }
        },
    }
}

/// The children from index `k` on, each resolved, appended to `acc`.
pub open spec fn resolve_seq(
    ch: Seq<SpecAst>,
    k: int,
    acc: Seq<SpecAst>,
    env: Seq<(Seq<char>, SpecAst)>,
    stack: Seq<Seq<char>>,
) -> Result<Seq<SpecAst>, SpecResolveErr>
    decreases env.len() - stack.len(), ch, ch.len() - k,
{
    if k < 0 || k >= ch.len() {
        Result::Ok(acc)
    } else {
        match resolve_spec(ch[k], env, stack) {
            Result::Ok(h) => resolve_seq(ch, k + 1, acc.push(h), env, stack),
            Result::Err(e) => Result::Err(e),
        }
    }
}

/// Law: resolution is the identity on a variable-free tree, whatever the
/// environment: the returned tree is the input unchanged.
pub proof fn lemma_resolution_variable_free_identity(ast: SpecAst, env: Seq<(Seq<char>, SpecAst)>)
    requires
        vars_free(ast),
    ensures
        resolve_spec(ast, env, Seq::empty()) == Result::<SpecAst, SpecResolveErr>::Ok(ast),
{
    lemma_resolve_vars_free(ast, env, Seq::empty());
}

proof fn lemma_resolve_vars_free(ast: SpecAst, env: Seq<(Seq<char>, SpecAst)>, stack: Seq<Seq<char>>)
    requires
        vars_free(ast),
    ensures
        resolve_spec(ast, env, stack) == Result::<SpecAst, SpecResolveErr>::Ok(ast),
    decreases ast, 0int,
{
    match ast {
        SpecAst::Concat(ch) => {
            lemma_resolve_seq_vars_free(ch, 0, Seq::empty(), env, stack);
            assert(Seq::<SpecAst>::empty() + ch.subrange(0, ch.len() as int) =~= ch);
        },
        SpecAst::Alteration(ch) => {
            lemma_resolve_seq_vars_free(ch, 0, Seq::empty(), env, stack);
            assert(Seq::<SpecAst>::empty() + ch.subrange(0, ch.len() as int) =~= ch);
        },
        SpecAst::Group(ch) => {
            lemma_resolve_seq_vars_free(ch, 0, Seq::empty(), env, stack);
            assert(Seq::<SpecAst>::empty() + ch.subrange(0, ch.len() as int) =~= ch);
        },
        SpecAst::Star(ch) => {
            lemma_resolve_seq_vars_free(ch, 0, Seq::empty(), env, stack);
            assert(Seq::<SpecAst>::empty() + ch.subrange(0, ch.len() as int) =~= ch);
        },
        SpecAst::Plus(ch) => {
            lemma_resolve_seq_vars_free(ch, 0, Seq::empty(), env, stack);
            assert(Seq::<SpecAst>::empty() + ch.subrange(0, ch.len() as int) =~= ch);
        },
        SpecAst::Question(ch) => {
            lemma_resolve_seq_vars_free(ch, 0, Seq::empty(), env, stack);
            assert(Seq::<SpecAst>::empty() + ch.subrange(0, ch.len() as int) =~= ch);
        },
        SpecAst::Repetition { node, min, max } => {
            lemma_resolve_seq_vars_free(node, 0, Seq::empty(), env, stack);
            assert(Seq::<SpecAst>::empty() + node.subrange(0, node.len() as int) =~= node);
        },
        _ => {},
    }
}

proof fn lemma_resolve_seq_vars_free(
    ch: Seq<SpecAst>,
    k: int,
    acc: Seq<SpecAst>,
    env: Seq<(Seq<char>, SpecAst)>,
    stack: Seq<Seq<char>>,
)
    requires
        0 <= k <= ch.len(),
        seq_vars_free(ch),
    ensures
        resolve_seq(ch, k, acc, env, stack) == Result::<Seq<SpecAst>, SpecResolveErr>::Ok(
            acc + ch.subrange(k, ch.len() as int),
        ),
    decreases ch, ch.len() - k,
{
    if k >= ch.len() {
        assert(acc + ch.subrange(k, ch.len() as int) =~= acc);
    } else {
        lemma_seq_vars_free_index(ch);
        lemma_resolve_vars_free(ch[k], env, stack);
        lemma_resolve_seq_vars_free(ch, k + 1, acc.push(ch[k]), env, stack);
        assert(acc.push(ch[k]) + ch.subrange(k + 1, ch.len() as int) =~= acc + ch.subrange(
            k,
            ch.len() as int,
        ));
    }
}

/// The names of the environment's entries.
pub open spec fn env_names(env: Seq<(Seq<char>, SpecAst)>) -> Seq<Seq<char>> {
    env.map_values(|e: (Seq<char>, SpecAst)| e.0)
}

proof fn lemma_lookup_in_names(env: Seq<(Seq<char>, SpecAst)>, name: Seq<char>, k: int)
    requires
        0 <= k,
    ensures
        env_lookup_from(env, name, k) is Some ==> env_names(env).contains(name),
    decreases env.len() - k,
{
    if k < env.len() {
        if env[k].0 == name {
            assert(env_names(env)[k] == name);
        } else {
            lemma_lookup_in_names(env, name, k + 1);
        }
    }
}

/// A duplicate-free stack whose names all have bindings cannot outgrow the
/// environment.
proof fn lemma_stack_bound(env: Seq<(Seq<char>, SpecAst)>, stack: Seq<Seq<char>>)
    requires
        stack.no_duplicates(),
        forall|k: int| 0 <= k < stack.len() ==> env_lookup(env, #[trigger] stack[k]) is Some,
    ensures
        stack.len() <= env.len(),
{
    broadcast use vstd::seq_lib::seq_to_set_is_finite;

    let names = env_names(env);
    assert forall|k: int| 0 <= k < stack.len() implies names.to_set().contains(
        #[trigger] stack[k],
    ) by {
        lemma_lookup_in_names(env, stack[k], 0);
    }
    stack.unique_seq_to_set();
    names.lemma_cardinality_of_set();
    assert(stack.to_set().subset_of(names.to_set()));
    lemma_len_subset(stack.to_set(), names.to_set());
}

/// Does the executable outcome of a resolution step agree with its model?
pub open spec fn resolved_matches(
    r: Result<RegexAST, ResolveError>,
    m: Result<SpecAst, SpecResolveErr>,
) -> bool {
    match (r, m) {
        (Result::Ok(out), Result::Ok(mast)) => out@ == mast,
        (Result::Err(e), Result::Err(me)) => e.kind == me.kind && e.name@ == me.name,
        _ => false,
    }
}

/// Does the executable outcome of resolving a child list agree with its
/// model?
pub open spec fn resolved_seq_matches(
    r: Result<Vec<RegexAST>, ResolveError>,
    m: Result<Seq<SpecAst>, SpecResolveErr>,
) -> bool {
    match (r, m) {
        (Result::Ok(out), Result::Ok(ms)) => view_asts(out@) == ms,
        (Result::Err(e), Result::Err(me)) => e.kind == me.kind && e.name@ == me.name,
        _ => false,
    }
}

proof fn lemma_resolve_seq_one(
    x: SpecAst,
    env: Seq<(Seq<char>, SpecAst)>,
    stack: Seq<Seq<char>>,
)
    ensures
        resolve_seq(seq![x], 0, Seq::empty(), env, stack) == match resolve_spec(x, env, stack) {
            Result::Ok(h) => Result::<Seq<SpecAst>, SpecResolveErr>::Ok(seq![h]),
            Result::Err(e) => Result::<Seq<SpecAst>, SpecResolveErr>::Err(e),
        },
{
    let ch = seq![x];
    assert(ch[0] == x);
    match resolve_spec(x, env, stack) {
        Result::Ok(h) => {
            assert(resolve_seq(ch, 1, Seq::<SpecAst>::empty().push(h), env, stack) == Result::<
                Seq<SpecAst>,
                SpecResolveErr,
            >::Ok(Seq::<SpecAst>::empty().push(h)));
            assert(Seq::<SpecAst>::empty().push(h) =~= seq![h]);
        },
        Result::Err(_) => {},
    }
}

impl VariableEnv {
    /// An environment with no bindings.
    pub fn new() -> (r: Self)
        ensures
            r@ == Seq::<(Seq<char>, SpecAst)>::empty(),
    {
        let r = VariableEnv { entries: Vec::new() };
        proof {
            assert(r@ =~= Seq::<(Seq<char>, SpecAst)>::empty());
        }
        r
    }

    /// Add a binding of `name` to `ast` after the existing ones; an
    /// earlier binding of the same name keeps precedence.
    pub fn bind(&mut self, name: String, ast: RegexAST)
        ensures
            final(self)@ == old(self)@.push((name@, ast@)),
    {
        let ghost pre = self.entries@;
        self.entries.push((name, ast));
        proof {
            assert(final(self)@ =~= old(self)@.push(
                (self.entries@[pre.len() as int].0@, self.entries@[pre.len() as int].1@),
            ));
        }
    }

    /// How many bindings the environment holds.
    pub fn len(&self) -> (r: usize)
        ensures
            r == self@.len(),
    {
        self.entries.len()
    }

    /// The tree bound to `name`, if any: the first binding wins.
    fn lookup(&self, name: &String) -> (r: Option<&RegexAST>)
        ensures
            match r {
                Option::Some(a) => env_lookup(self@, name@) == Option::Some(a@),
                Option::None => env_lookup(self@, name@) is None,
            },
    {
        let n = self.entries.len();
        let mut k: usize = 0;
        while k < n
            invariant
                n == self.entries@.len(),
                k <= n,
                self@.len() == n,
                env_lookup(self@, name@) == env_lookup_from(self@, name@, k as int),
            decreases n - k,
        {
            if self.entries[k].0 == *name {
                return Option::Some(&self.entries[k].1);
            }
            k = k + 1;
        }
        Option::None
    }
}

/// Is `name` among the stack of names?
fn contains_name(stack: &Vec<String>, name: &String) -> (r: bool)
    ensures
        r == names_view(stack@).contains(name@),
{
    let n = stack.len();
    let mut k: usize = 0;
    while k < n
        invariant
            n == stack@.len(),
            k <= n,
            forall|j: int| 0 <= j < k ==> names_view(stack@)[j] != name@,
        decreases n - k,
    {
        if stack[k] == *name {
            proof {
                assert(names_view(stack@)[k as int] == name@);
            }
            return true;
        }
        k = k + 1;
    }
    proof {
        assert forall|j: int| 0 <= j < stack@.len() implies names_view(stack@)[j] != name@ by {}
        assert(!names_view(stack@).contains(name@));
    }
    false
}

/// Every child of the list resolved in order.
fn resolve_vec(children: &Vec<RegexAST>, env: &VariableEnv, stack: &mut Vec<String>) -> (r: Result<
    Vec<RegexAST>,
    ResolveError,
>)
    requires
        names_view(old(stack)@).no_duplicates(),
        forall|k: int| 0 <= k < old(stack)@.len() ==> env_lookup(
            env@,
            #[trigger] names_view(old(stack)@)[k],
        ) is Some,
    ensures
        final(stack)@ == old(stack)@,
        resolved_seq_matches(
            r,
            resolve_seq(view_asts(children@), 0, Seq::empty(), env@, names_view(old(stack)@)),
        ),
    decreases env@.len() - old(stack)@.len(), children@, 0int,
{
    let ghost ch = view_asts(children@);
    let n = children.len();
    let mut out: Vec<RegexAST> = Vec::new();
    let mut k: usize = 0;
    proof {
        lemma_view_asts(children@);
    }
    while k < n
        invariant
            n == children@.len(),
            ch == view_asts(children@),
            ch.len() == n,
            k <= n,
            stack@ == old(stack)@,
            names_view(old(stack)@).no_duplicates(),
            forall|j: int| 0 <= j < old(stack)@.len() ==> env_lookup(
                env@,
                #[trigger] names_view(old(stack)@)[j],
            ) is Some,
            resolve_seq(ch, 0, Seq::empty(), env@, names_view(old(stack)@)) == resolve_seq(
                ch,
                k as int,
                view_asts(out@),
                env@,
                names_view(old(stack)@),
            ),
        decreases n - k,
    {
        proof {
            lemma_view_asts(children@);
            assert(decreases_to!(children@ => children@[k as int]));
        }
        match resolve_node(&children[k], env, stack) {
            Result::Ok(node) => {
                proof {
                    lemma_view_asts_push(out@, node);
                }
                out.push(node);
            },
            Result::Err(e) => {
                return Result::Err(e);
            },
        }
        k = k + 1;
    }
    Result::Ok(out)
}

/// One tree resolved under the current expansion stack; the stack is
/// handed back as it was.
fn resolve_node(ast: &RegexAST, env: &VariableEnv, stack: &mut Vec<String>) -> (r: Result<
    RegexAST,
    ResolveError,
>)
    requires
        names_view(old(stack)@).no_duplicates(),
        forall|k: int| 0 <= k < old(stack)@.len() ==> env_lookup(
            env@,
            #[trigger] names_view(old(stack)@)[k],
        ) is Some,
    ensures
        final(stack)@ == old(stack)@,
        resolved_matches(r, resolve_spec(ast@, env@, names_view(old(stack)@))),
    decreases env@.len() - old(stack)@.len(), ast, 1int,
{
    let ghost st = names_view(old(stack)@);
    match ast {
        RegexAST::Literal(c) => Result::Ok(RegexAST::Literal(*c)),
        RegexAST::Dot => Result::Ok(RegexAST::Dot),
        RegexAST::CharClass(name) => Result::Ok(RegexAST::CharClass(name.clone())),
        RegexAST::BracketExpression { negated, items } => Result::Ok(
            RegexAST::BracketExpression { negated: *negated, items: items.clone() },
        ),
        RegexAST::Concat(v) => match resolve_vec(v, env, stack) {
            Result::Ok(out) => Result::Ok(RegexAST::Concat(out)),
            Result::Err(e) => Result::Err(e),
        },
        RegexAST::Alteration(v) => match resolve_vec(v, env, stack) {
            Result::Ok(out) => Result::Ok(RegexAST::Alteration(out)),
            Result::Err(e) => Result::Err(e),
        },
        RegexAST::Group(b) => {
            proof {
                lemma_resolve_seq_one((**b)@, env@, st);
            }
            match resolve_node(b, env, stack) {
                Result::Ok(out) => Result::Ok(RegexAST::Group(Box::new(out))),
                Result::Err(e) => Result::Err(e),
            }
        },
        RegexAST::Star(b) => {
            proof {
                lemma_resolve_seq_one((**b)@, env@, st);
            }
            match resolve_node(b, env, stack) {
                Result::Ok(out) => Result::Ok(RegexAST::Star(Box::new(out))),
                Result::Err(e) => Result::Err(e),
            }
        },
        RegexAST::Plus(b) => {
            proof {
                lemma_resolve_seq_one((**b)@, env@, st);
            }
            match resolve_node(b, env, stack) {
                Result::Ok(out) => Result::Ok(RegexAST::Plus(Box::new(out))),
                Result::Err(e) => Result::Err(e),
            }
        },
        RegexAST::Question(b) => {
            proof {
                lemma_resolve_seq_one((**b)@, env@, st);
            }
            match resolve_node(b, env, stack) {
                Result::Ok(out) => Result::Ok(RegexAST::Question(Box::new(out))),
                Result::Err(e) => Result::Err(e),
            }
        },
        RegexAST::Repetition { node, min, max } => {
            proof {
                lemma_resolve_seq_one((**node)@, env@, st);
            }
            match resolve_node(node, env, stack) {
                Result::Ok(out) => Result::Ok(
                    RegexAST::Repetition { node: Box::new(out), min: *min, max: *max },
                ),
                Result::Err(e) => Result::Err(e),
            }
        },
        RegexAST::Variable(name) => {
            if contains_name(stack, name) {
                return Result::Err(
                    ResolveError { kind: ResolveErrorKind::CyclicVariable, name: name.clone() },
                );
            }
            match env.lookup(name) {
                Option::None => Result::Err(
                    ResolveError { kind: ResolveErrorKind::UnknownVariable, name: name.clone() },
                ),
                Option::Some(bound) => {
                    proof {
                        lemma_stack_bound(env@, st.push(name@));
                    }
                    stack.push(name.clone());
                    proof {
                        assert(names_view(stack@) =~= st.push(name@));
                    }
                    let r = resolve_node(bound, env, stack);
                    let popped = stack.pop();
                    proof {
                        assert(stack@ =~= old(stack)@);
                    }
                    match r {
                        Result::Ok(out) => Result::Ok(out),
                        Result::Err(e) => Result::Err(e),
                    }
                },
            }
        },
    }
}

/// The tree with every variable substituted by its binding in `env`, or
/// the first resolver error: an unknown variable, or one defined directly
/// or transitively in terms of itself.  On a variable-free tree the result
/// is the input unchanged.
pub fn resolve(ast: &RegexAST, env: &VariableEnv) -> (r: Result<RegexAST, TsegerError>)
    ensures
        match r {
            Result::Ok(out) => resolve_spec(ast@, env@, Seq::empty()) == Result::<
                SpecAst,
                SpecResolveErr,
            >::Ok(out@),
            Result::Err(e) => match e {
                TsegerError::ResolverError(re) => match resolve_spec(ast@, env@, Seq::empty()) {
                    Result::Err(me) => re.kind == me.kind && re.name@ == me.name,
                    Result::Ok(_) => false,
                },
                _ => false,
            },
        },
        vars_free(ast@) ==> (r matches Result::Ok(out) && out@ == ast@),
{
    let mut stack: Vec<String> = Vec::new();
    proof {
        assert(names_view(stack@) =~= Seq::<Seq<char>>::empty());
        if vars_free(ast@) {
            lemma_resolution_variable_free_identity(ast@, env@);
        }
    }
    match resolve_node(ast, env, &mut stack) {
        Result::Ok(out) => Result::Ok(out),
        Result::Err(e) => Result::Err(TsegerError::ResolverError(e)),
    }
}


/// Every tree that resolution returns is variable-free: resolution
/// substitutes bindings all the way down.
pub proof fn lemma_resolve_output_variable_free(
    ast: SpecAst,
    env: Seq<(Seq<char>, SpecAst)>,
    stack: Seq<Seq<char>>,
)
    ensures
        match resolve_spec(ast, env, stack) {
            Result::Ok(out) => vars_free(out),
            Result::Err(_) => true,
        },
    decreases env.len() - stack.len(), ast, 0int,
{
    match ast {
        SpecAst::Concat(ch) => {
            lemma_resolve_seq_output_variable_free(ch, 0, Seq::empty(), env, stack);
        },
        SpecAst::Alteration(ch) => {
            lemma_resolve_seq_output_variable_free(ch, 0, Seq::empty(), env, stack);
        },
        SpecAst::Group(ch) => {
            lemma_resolve_seq_output_variable_free(ch, 0, Seq::empty(), env, stack);
        },
        SpecAst::Star(ch) => {
            lemma_resolve_seq_output_variable_free(ch, 0, Seq::empty(), env, stack);
        },
        SpecAst::Plus(ch) => {
            lemma_resolve_seq_output_variable_free(ch, 0, Seq::empty(), env, stack);
        },
        SpecAst::Question(ch) => {
            lemma_resolve_seq_output_variable_free(ch, 0, Seq::empty(), env, stack);
        },
        SpecAst::Repetition { node, min, max } => {
            lemma_resolve_seq_output_variable_free(node, 0, Seq::empty(), env, stack);
        },
        SpecAst::Variable(name) => {
            if !stack.contains(name) {
                match env_lookup(env, name) {
                    Option::Some(bound) => {
                        if stack.len() < env.len() {
                            lemma_resolve_output_variable_free(bound, env, stack.push(name));
                        }
                    },
                    Option::None => {},
                }
            }
        },
        _ => {},
    }
}

proof fn lemma_resolve_seq_output_variable_free(
    ch: Seq<SpecAst>,
    k: int,
    acc: Seq<SpecAst>,
    env: Seq<(Seq<char>, SpecAst)>,
    stack: Seq<Seq<char>>,
)
    requires
        seq_vars_free(acc),
    ensures
        match resolve_seq(ch, k, acc, env, stack) {
            Result::Ok(outs) => seq_vars_free(outs),
            Result::Err(_) => true,
        },
    decreases env.len() - stack.len(), ch, ch.len() - k,
{
    if 0 <= k < ch.len() {
        lemma_resolve_output_variable_free(ch[k], env, stack);
        match resolve_spec(ch[k], env, stack) {
            Result::Ok(h) => {
                lemma_seq_vars_free_index(acc);
                lemma_seq_vars_free_index(acc.push(h));
                lemma_resolve_seq_output_variable_free(ch, k + 1, acc.push(h), env, stack);
            },
            Result::Err(_) => {},
        }
    }
}

/// Law: resolution is idempotent.  Whatever resolution returns, resolving
/// it again returns the same tree unchanged, since the first pass already
/// substituted every variable.
pub proof fn lemma_resolution_idempotent(ast: SpecAst, env: Seq<(Seq<char>, SpecAst)>)
    ensures
        match resolve_spec(ast, env, Seq::empty()) {
            Result::Ok(out) => resolve_spec(out, env, Seq::empty()) == Result::<
                SpecAst,
                SpecResolveErr,
            >::Ok(out),
            Result::Err(_) => true,
        },
{
    lemma_resolve_output_variable_free(ast, env, Seq::empty());
    match resolve_spec(ast, env, Seq::empty()) {
        Result::Ok(out) => {
            lemma_resolution_variable_free_identity(out, env);
        },
        Result::Err(_) => {},
    }
}


/// Are all the environment's bound trees within repetition bounds?
pub open spec fn env_bounds_ok(env: Seq<(Seq<char>, SpecAst)>) -> bool {
    forall|k: int| 0 <= k < env.len() ==> bounds_ok((#[trigger] env[k]).1)
}

proof fn lemma_lookup_is_entry(env: Seq<(Seq<char>, SpecAst)>, name: Seq<char>, k: int)
    requires
        0 <= k,
        env_bounds_ok(env),
    ensures
        match env_lookup_from(env, name, k) {
            Option::Some(b) => bounds_ok(b),
            Option::None => true,
        },
    decreases env.len() - k,
{
    if k < env.len() && env[k].0 != name {
        lemma_lookup_is_entry(env, name, k + 1);
    }
}

/// Resolution keeps repetition bounds ordered: whatever it returns meets
/// the compiler's precondition on bounds, provided the input tree and
/// every bound tree of the environment do.
pub proof fn lemma_resolve_preserves_bounds_ok(
    ast: SpecAst,
    env: Seq<(Seq<char>, SpecAst)>,
    stack: Seq<Seq<char>>,
)
    requires
        bounds_ok(ast),
        env_bounds_ok(env),
    ensures
        match resolve_spec(ast, env, stack) {
            Result::Ok(out) => bounds_ok(out),
            Result::Err(_) => true,
        },
    decreases env.len() - stack.len(), ast, 0int,
{
    match ast {
        SpecAst::Concat(ch) => {
            lemma_resolve_seq_preserves_bounds_ok(ch, 0, Seq::empty(), env, stack);
        },
        SpecAst::Alteration(ch) => {
            lemma_resolve_seq_preserves_bounds_ok(ch, 0, Seq::empty(), env, stack);
        },
        SpecAst::Group(ch) => {
            lemma_resolve_seq_preserves_bounds_ok(ch, 0, Seq::empty(), env, stack);
        },
        SpecAst::Star(ch) => {
            lemma_resolve_seq_preserves_bounds_ok(ch, 0, Seq::empty(), env, stack);
        },
        SpecAst::Plus(ch) => {
            lemma_resolve_seq_preserves_bounds_ok(ch, 0, Seq::empty(), env, stack);
        },
        SpecAst::Question(ch) => {
            lemma_resolve_seq_preserves_bounds_ok(ch, 0, Seq::empty(), env, stack);
        },
        SpecAst::Repetition { node, min, max } => {
            lemma_resolve_seq_preserves_bounds_ok(node, 0, Seq::empty(), env, stack);
        },
        SpecAst::Variable(name) => {
            if !stack.contains(name) {
                lemma_lookup_is_entry(env, name, 0);
                match env_lookup(env, name) {
                    Option::Some(bound) => {
                        if stack.len() < env.len() {
                            lemma_resolve_preserves_bounds_ok(bound, env, stack.push(name));
                        }
                    },
                    Option::None => {},
                }
            }
        },
        _ => {},
    }
}

proof fn lemma_resolve_seq_preserves_bounds_ok(
    ch: Seq<SpecAst>,
    k: int,
    acc: Seq<SpecAst>,
    env: Seq<(Seq<char>, SpecAst)>,
    stack: Seq<Seq<char>>,
)
    requires
        seq_bounds_ok(ch),
        seq_bounds_ok(acc),
        env_bounds_ok(env),
    ensures
        match resolve_seq(ch, k, acc, env, stack) {
            Result::Ok(outs) => seq_bounds_ok(outs),
            Result::Err(_) => true,
        },
    decreases env.len() - stack.len(), ch, ch.len() - k,
{
    if 0 <= k < ch.len() {
        lemma_seq_bounds_ok_index(ch);
        lemma_resolve_preserves_bounds_ok(ch[k], env, stack);
        match resolve_spec(ch[k], env, stack) {
            Result::Ok(h) => {
                lemma_seq_bounds_ok_index(acc);
                lemma_seq_bounds_ok_index(acc.push(h));
                lemma_resolve_seq_preserves_bounds_ok(ch, k + 1, acc.push(h), env, stack);
            },
            Result::Err(_) => {},
        }
    }
}


/// The index after `i` in a cycle of `n` names.
pub open spec fn chain_next(i: int, n: int) -> int {
    if i + 1 < n {
        i + 1
    } else {
        0
    }
}

/// Does the environment bind each name of the cycle to a bare variable
/// node naming the next one?
pub open spec fn variable_chain(names: Seq<Seq<char>>, env: Seq<(Seq<char>, SpecAst)>) -> bool {
    forall|i: int| 0 <= i < names.len() ==> env_lookup(env, #[trigger] names[i]) == Option::Some(
        SpecAst::Variable(names[chain_next(i, names.len() as int)]),
    )
}

proof fn lemma_chain_step(names: Seq<Seq<char>>, env: Seq<(Seq<char>, SpecAst)>, i: int)
    requires
        1 <= names.len(),
        names.no_duplicates(),
        variable_chain(names, env),
        0 <= i < names.len(),
    ensures
        match resolve_spec(SpecAst::Variable(names[i]), env, names.take(i)) {
            Result::Err(e) => e.kind == ResolveErrorKind::CyclicVariable,
            Result::Ok(_) => false,
        },
    decreases names.len() - i,
{
    let stack = names.take(i);
    assert(!stack.contains(names[i])) by {
        if stack.contains(names[i]) {
            let j = choose|j: int| 0 <= j < stack.len() && stack[j] == names[i];
            assert(names[j] == names[i]);
            assert(names[j] != names[i]);
        }
    }
    assert forall|k: int| 0 <= k < names.len() implies env_lookup(env, #[trigger] names[k])
        is Some by {
        assert(variable_chain(names, env));
    }
    lemma_stack_bound(env, names);
    let stack2 = stack.push(names[i]);
    assert(stack2 =~= names.take(i + 1));
    if i + 1 < names.len() {
        lemma_chain_step(names, env, i + 1);
        assert(resolve_spec(SpecAst::Variable(names[i]), env, stack) == resolve_spec(
            SpecAst::Variable(names[i + 1]),
            env,
            names.take(i + 1),
        ));
    } else {
        assert(stack2 =~= names);
        assert(stack2[0] == names[0]);
        assert(stack2.contains(names[0]));
        assert(resolve_spec(SpecAst::Variable(names[i]), env, stack) == resolve_spec(
            SpecAst::Variable(names[0]),
            env,
            stack2,
        ));
        assert(resolve_spec(SpecAst::Variable(names[0]), env, stack2) == Result::<
            SpecAst,
            SpecResolveErr,
        >::Err(resolve_err(ResolveErrorKind::CyclicVariable, names[0])));
    }
}

/// Law: a variable defined in terms of itself, directly or through any
/// chain of further variables, cannot be resolved: expansion walks the
/// chain onto the stack, meets the first name again and fails as cyclic.
/// A one-name chain is the direct self-reference.
pub proof fn lemma_cyclic_variable_chain_refused(
    names: Seq<Seq<char>>,
    env: Seq<(Seq<char>, SpecAst)>,
)
    requires
        1 <= names.len(),
        names.no_duplicates(),
        variable_chain(names, env),
    ensures
        match resolve_spec(SpecAst::Variable(names[0]), env, Seq::empty()) {
            Result::Err(e) => e.kind == ResolveErrorKind::CyclicVariable,
            Result::Ok(_) => false,
        },
{
    assert(names.take(0) =~= Seq::<Seq<char>>::empty());
    lemma_chain_step(names, env, 0);
}

} // verus!
