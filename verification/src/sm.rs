//! The automaton: an arena of states addressed by integer id, each owning
//! an adjacency list of labelled edges, plus one initial and one accept
//! state.  Cycles are expressed as integer-indexed edges, never as direct
//! structural ownership.
//!
//! The matcher simulates the automaton without backtracking: it keeps the
//! epsilon-closure of the active state set and steps it over each input
//! symbol; after all input is consumed it accepts exactly when the accept
//! state is active.  `StateMachine::matches` is pinned to the path-based
//! acceptance model `sm_accepts`.

use vstd::prelude::*;

use crate::parser::BracketExpressionItem;

verus! {

/// The integer id of a state: its address in the automaton's arena.
#[derive(Eq, Hash, PartialEq, Debug, Copy, Clone, Structural)]
pub struct StateId(pub usize);

/// One input symbol.
#[derive(Eq, Hash, PartialEq, Debug, Copy, Clone)]
pub struct Symbol(pub char);

/// A character test on an edge: the closed set of predicate shapes.
#[derive(Debug, PartialEq, Eq, Clone)]
pub enum Predicate {
    /// Accepts every character.
    AnyChar,
    /// Accepts exactly one character.
    ExactChar(char),
    /// Accepts an inclusive character range.
    CharRange(char, char),
    /// Accepts the characters of a bracket set, or its complement.
    BracketSet { negated: bool, items: Vec<BracketExpressionItem> },
}

/// The label of an edge: consumable without input, or guarded by a
/// predicate.
#[derive(Debug, PartialEq, Eq, Clone)]
pub enum TransitionLabel {
    Epsilon,
    Pred(Predicate),
}

/// One state of the automaton and its outgoing edges.
#[derive(Debug)]
pub struct State {
    pub id: StateId,
    pub transitions: Vec<(TransitionLabel, StateId)>,
}

/// The automaton.  Once built it is never mutated by matching; the
/// `current_state` field serves only the single-walk `process` interface.
#[derive(Debug)]
pub struct StateMachine {
    pub states: Vec<State>,
    pub initial_state: Option<StateId>,
    pub accept_state: Option<StateId>,
    pub current_state: Option<StateId>,
}

/// Does one bracket item accept `c`?
pub open spec fn item_matches(it: BracketExpressionItem, c: char) -> bool {
    match it {
        BracketExpressionItem::Char(d) => c == d,
        BracketExpressionItem::Range(a, b) => a <= c && c <= b,
    }
}

/// Does some item of the bracket set accept `c`?
pub open spec fn items_contain(items: Seq<BracketExpressionItem>, c: char) -> bool {
    exists|k: int| 0 <= k < items.len() && item_matches(#[trigger] items[k], c)
}

/// Does the predicate accept `c`?
pub open spec fn pred_matches(p: Predicate, c: char) -> bool {
    match p {
        Predicate::AnyChar => true,
        Predicate::ExactChar(d) => c == d,
        Predicate::CharRange(a, b) => a <= c && c <= b,
        Predicate::BracketSet { negated, items } => items_contain(items@, c) != negated,
    }
}

/// Law: for any character, exactly one of a bracket set and its negation
/// accepts it.
pub proof fn lemma_bracket_negation_partition(items: Vec<BracketExpressionItem>, c: char)
    ensures
        pred_matches(Predicate::BracketSet { negated: false, items: items }, c) != pred_matches(
            Predicate::BracketSet { negated: true, items: items },
            c,
        ),
{
}

/// The first state of the arena slice from `k` on that carries `id`.
pub open spec fn find_state(states: Seq<State>, id: StateId, k: int) -> Option<int>
    decreases states.len() - k,
{
    if k < 0 || k >= states.len() {
        Option::None
    } else if states[k].id == id {
        Option::Some(k)
    } else {
        find_state(states, id, k + 1)
    }
}

/// The index of the state carrying `id`, if any.
pub open spec fn state_lookup(states: Seq<State>, id: StateId) -> Option<int> {
    find_state(states, id, 0)
}

/// The target of the first edge from `j` on whose predicate accepts `c`.
pub open spec fn edge_lookup(ts: Seq<(TransitionLabel, StateId)>, c: char, j: int) -> Option<StateId>
    decreases ts.len() - j,
{
    if j < 0 || j >= ts.len() {
        Option::None
    } else {
        match ts[j].0 {
            TransitionLabel::Pred(p) => if pred_matches(p, c) {
                Option::Some(ts[j].1)
            } else {
                edge_lookup(ts, c, j + 1)
            },
            TransitionLabel::Epsilon => edge_lookup(ts, c, j + 1),
        }
    }
}

/// Does the label consume exactly the character `c`?
pub open spec fn is_exact_label(l: TransitionLabel, c: char) -> bool {
    match l {
        TransitionLabel::Pred(p) => match p {
            Predicate::ExactChar(d) => d == c,
            _ => false,
        },
        TransitionLabel::Epsilon => false,
    }
}

/// The first edge from `j` on whose label consumes exactly `c`.
pub open spec fn find_exact(ts: Seq<(TransitionLabel, StateId)>, c: char, j: int) -> Option<int>
    decreases ts.len() - j,
{
    if j < 0 || j >= ts.len() {
        Option::None
    } else if is_exact_label(ts[j].0, c) {
        Option::Some(j)
    } else {
        find_exact(ts, c, j + 1)
    }
}

/// Can the single-walk interface locate its position: a current and an
/// accept state are set, and the current state is in the arena.
pub open spec fn walk_ready(m: StateMachine) -> bool {
    &&& m.current_state is Some
    &&& m.accept_state is Some
    &&& state_lookup(m.states@, m.current_state->Some_0) is Some
}

/// The state that a single-walk step on `c` moves to, if the current
/// state has an edge accepting `c`.
pub open spec fn walk_step(m: StateMachine, c: char) -> Option<StateId>
    recommends
        walk_ready(m),
{
    match state_lookup(m.states@, m.current_state->Some_0) {
        Option::Some(k) => edge_lookup(m.states@[k].transitions@, c, 0),
        Option::None => Option::None,
    }
}

/// Relies on rand::random: a value of the thread-local generator, of
/// which nothing is promised.
#[verifier::external_body]
fn random_u16() -> u16 {
    rand::random::<u16>()
}

impl State {
    /// A fresh state with no edges, under a randomly drawn id.
    pub fn new() -> (r: Self)
        ensures
            r.transitions@.len() == 0,
    {
        let id: u16 = random_u16();
        State { id: StateId(id as usize), transitions: Vec::new() }
    }

    /// Add an edge consuming exactly `symbol` to the given state.  An
    /// earlier edge for the same symbol is overwritten in place, so the
    /// single-walk interface keeps at most one target per symbol and a
    /// repeated addition makes the newest target win.
    pub fn add_transition(&mut self, symbol: Symbol, state: StateId)
        ensures
            final(self).id == old(self).id,
            match find_exact(old(self).transitions@, symbol.0, 0) {
                Option::Some(j) => final(self).transitions@ == old(self).transitions@.update(
                    j,
                    (TransitionLabel::Pred(Predicate::ExactChar(symbol.0)), state),
                ),
                Option::None => final(self).transitions@ == old(self).transitions@.push(
                    (TransitionLabel::Pred(Predicate::ExactChar(symbol.0)), state),
                ),
            },
    {
        let n = self.transitions.len();
        let mut j: usize = 0;
        while j < n
            invariant
                n == self.transitions@.len(),
                j <= n,
                *self == *old(self),
                find_exact(self.transitions@, symbol.0, 0) == find_exact(
                    self.transitions@,
                    symbol.0,
                    j as int,
                ),
            decreases n - j,
        {
            let hit: bool = match &self.transitions[j].0 {
                TransitionLabel::Pred(p) => match p {
                    Predicate::ExactChar(d) => *d == symbol.0,
                    _ => false,
                },
                TransitionLabel::Epsilon => false,
            };
            if hit {
                self.transitions[j] = (
                    TransitionLabel::Pred(Predicate::ExactChar(symbol.0)),
                    state,
                );
                return ;
            }
            j = j + 1;
        }
        self.transitions.push((TransitionLabel::Pred(Predicate::ExactChar(symbol.0)), state));
    }

    /// The state that the first edge accepting `symbol` leads to; the
    /// caller must know such an edge exists.
    pub fn next(&self, symbol: Symbol) -> (r: StateId)
        requires
            edge_lookup(self.transitions@, symbol.0, 0) is Some,
        ensures
            Option::Some(r) == edge_lookup(self.transitions@, symbol.0, 0),
    {
        let n = self.transitions.len();
        let mut j: usize = 0;
        while j < n
            invariant
                n == self.transitions@.len(),
                j <= n,
                edge_lookup(self.transitions@, symbol.0, 0) == edge_lookup(
                    self.transitions@,
                    symbol.0,
                    j as int,
                ),
                edge_lookup(self.transitions@, symbol.0, j as int) is Some,
            decreases n - j,
        {
            match &self.transitions[j].0 {
                TransitionLabel::Pred(p) => {
                    if pred_test(p, symbol.0) {
                        return self.transitions[j].1;
                    }
                },
                TransitionLabel::Epsilon => {},
            }
            j = j + 1;
        }
        proof {
            assert(false);
        }
        StateId(0)
    }
}

/// Does the predicate accept `c`?  The executable form of `pred_matches`.
pub fn pred_test(p: &Predicate, c: char) -> (r: bool)
    ensures
        r == pred_matches(*p, c),
{
    match p {
        Predicate::AnyChar => true,
        Predicate::ExactChar(d) => c == *d,
        Predicate::CharRange(a, b) => (*a as u32) <= (c as u32) && (c as u32) <= (*b as u32),
        Predicate::BracketSet { negated, items } => {
            let n = items.len();
            let mut found: bool = false;
            let mut k: usize = 0;
            while k < n
                invariant
                    n == items@.len(),
                    k <= n,
                    found == (exists|j: int|
                        0 <= j < k && item_matches(#[trigger] items@[j], c)),
                decreases n - k,
            {
                let hit: bool = match &items[k] {
                    BracketExpressionItem::Char(d) => c == *d,
                    BracketExpressionItem::Range(a, b) => (*a as u32) <= (c as u32) && (c as u32)
                        <= (*b as u32),
                };
                if hit {
                    proof {
                        assert(item_matches(items@[k as int], c));
                    }
                    found = true;
                }
                k = k + 1;
            }
            found != *negated
        },
    }
}

impl StateMachine {
    /// An automaton with no states and nothing set.
    pub fn new() -> (r: Self)
        ensures
            r.states@.len() == 0,
            r.initial_state is None,
            r.accept_state is None,
            r.current_state is None,
    {
        StateMachine {
            states: Vec::new(),
            initial_state: Option::None,
            accept_state: Option::None,
            current_state: Option::None,
        }
    }

    /// Put a state into the arena: a state already carrying the same id is
    /// replaced, otherwise the state is appended.
    pub fn add_state(&mut self, state: State)
        ensures
            final(self).initial_state == old(self).initial_state,
            final(self).accept_state == old(self).accept_state,
            final(self).current_state == old(self).current_state,
            match state_lookup(old(self).states@, state.id) {
                Option::Some(k) => final(self).states@ == old(self).states@.update(k, state),
                Option::None => final(self).states@ == old(self).states@.push(state),
            },
    {
        let n = self.states.len();
        let sid = state.id;
        let mut k: usize = 0;
        while k < n
            invariant
                n == self.states@.len(),
                k <= n,
                sid == state.id,
                *self == *old(self),
                state_lookup(self.states@, sid) == find_state(self.states@, sid, k as int),
            decreases n - k,
        {
            if self.states[k].id == sid {
                self.states.remove(k);
                self.states.insert(k, state);
                proof {
                    assert(final(self).states@ =~= old(self).states@.update(k as int, state));
                }
                return ;
            }
            k = k + 1;
        }
        self.states.push(state);
    }

    /// Set the initial state; the single-walk interface starts there.
    pub fn set_initial(&mut self, initial: StateId)
        ensures
            final(self).states@ == old(self).states@,
            final(self).accept_state == old(self).accept_state,
            final(self).initial_state == Option::Some(initial),
            final(self).current_state == Option::Some(initial),
    {
        self.initial_state = Option::Some(initial);
        self.current_state = self.initial_state;
    }

    /// Set the accept state.
    pub fn set_accept(&mut self, accept: StateId)
        ensures
            final(self).states@ == old(self).states@,
            final(self).initial_state == old(self).initial_state,
            final(self).current_state == old(self).current_state,
            final(self).accept_state == Option::Some(accept),
    {
        self.accept_state = Option::Some(accept);
    }

    /// Walk one symbol from the current state along the first edge that
    /// accepts it, and report whether the walk reached the accept state.
    /// Where no edge accepts the symbol the walk is dead: the call rejects
    /// and the current state stays where it was.
    pub fn process(&mut self, symbol: Symbol) -> (r: bool)
        requires
            walk_ready(*old(self)),
        ensures
            final(self).states@ == old(self).states@,
            final(self).initial_state == old(self).initial_state,
            final(self).accept_state == old(self).accept_state,
            match walk_step(*old(self), symbol.0) {
                Option::Some(t) => final(self).current_state == Option::Some(t) && r == (t
                    == old(self).accept_state->Some_0),
                Option::None => final(self).current_state == old(self).current_state && !r,
            },
    {
        let cur: StateId = match self.current_state {
            Option::Some(c) => c,
            Option::None => {
                proof {
                    assert(false);
                }
                StateId(0)
            },
        };
        let n = self.states.len();
        let mut k: usize = 0;
        while k < n
            invariant
                n == self.states@.len(),
                k <= n,
                *self == *old(self),
                walk_ready(*old(self)),
                cur == old(self).current_state->Some_0,
                state_lookup(self.states@, cur) == find_state(self.states@, cur, k as int),
                find_state(self.states@, cur, k as int) is Some,
            decreases n - k,
        {
            if self.states[k].id == cur {
                let ts_len = self.states[k].transitions.len();
                let mut j: usize = 0;
                while j < ts_len
                    invariant
                        n == self.states@.len(),
                        k < n,
                        *self == *old(self),
                        walk_ready(*old(self)),
                        cur == old(self).current_state->Some_0,
                        state_lookup(self.states@, cur) == Option::Some(k as int),
                        ts_len == self.states@[k as int].transitions@.len(),
                        j <= ts_len,
                        edge_lookup(self.states@[k as int].transitions@, symbol.0, 0)
                            == edge_lookup(
                            self.states@[k as int].transitions@,
                            symbol.0,
                            j as int,
                        ),
                    decreases ts_len - j,
                {
                    let hit: bool = match &self.states[k].transitions[j].0 {
                        TransitionLabel::Pred(p) => pred_test(p, symbol.0),
                        TransitionLabel::Epsilon => false,
                    };
                    if hit {
                        let target = self.states[k].transitions[j].1;
                        self.current_state = Option::Some(target);
                        let accept: StateId = match self.accept_state {
                            Option::Some(a) => a,
                            Option::None => {
                                proof {
                                    assert(false);
                                }
                                StateId(0)
                            },
                        };
                        return target.0 == accept.0;
                    }
                    j = j + 1;
                }
                return false;
            }
            k = k + 1;
        }
        proof {
            assert(false);
        }
        false
    }
}


/// Is there an edge of `a` consumable without input that leads to `b`?
pub open spec fn eps_step(m: StateMachine, a: int, b: int) -> bool {
    0 <= a < m.states@.len() && exists|j: int|
        0 <= j < m.states@[a].transitions@.len() && (#[trigger] m.states@[a].transitions@[j]).0
            is Epsilon && m.states@[a].transitions@[j].1.0 == b
}

/// Is `p` a chain of states linked by edges consumable without input?
pub open spec fn is_eps_path(m: StateMachine, p: Seq<int>) -> bool {
    p.len() >= 1 && forall|k: int| 0 <= k < p.len() - 1 ==> eps_step(m, #[trigger] p[k], p[k + 1])
}

/// Is `s` reachable from some state of `src` without consuming input?
pub open spec fn eps_reach(m: StateMachine, src: Set<int>, s: int) -> bool {
    exists|p: Seq<int>| #[trigger] is_eps_path(m, p) && src.contains(p[0]) && p.last() == s
}

/// All states reachable from `src` without consuming input.
pub open spec fn eps_closure(m: StateMachine, src: Set<int>) -> Set<int> {
    Set::new(|s: int| eps_reach(m, src, s))
}

/// All states reached from `src` by one edge whose predicate accepts `c`.
pub open spec fn char_step(m: StateMachine, src: Set<int>, c: char) -> Set<int> {
    Set::new(
        |t: int|
            exists|s: int, j: int|
                src.contains(s) && 0 <= s < m.states@.len() && 0 <= j
                    < m.states@[s].transitions@.len() && (match (#[trigger] m.states@[
                    s].transitions@[j]).0 {
                    TransitionLabel::Pred(p) => pred_matches(p, c),
                    TransitionLabel::Epsilon => false,
                }) && m.states@[s].transitions@[j].1.0 == t,
    )
}

/// The set holding only the initial state's id.
pub open spec fn init_set(m: StateMachine) -> Set<int> {
    match m.initial_state {
        Option::Some(s) => Set::new(|x: int| x == s.0),
        Option::None => Set::empty(),
    }
}

/// The frontier after consuming `input`: the epsilon-closure of the
/// initial state, stepped over each symbol in turn.
pub open spec fn frontier_after(m: StateMachine, input: Seq<char>) -> Set<int>
    decreases input.len(),
{
    if input.len() == 0 {
        eps_closure(m, init_set(m))
    } else {
        eps_closure(m, char_step(m, frontier_after(m, input.drop_last()), input.last()))
    }
}

/// Acceptance: after all input is consumed, the accept state is in the
/// frontier.
pub open spec fn sm_accepts(m: StateMachine, input: Seq<char>) -> bool {
    match m.accept_state {
        Option::Some(a) => frontier_after(m, input).contains(a.0 as int),
        Option::None => false,
    }
}

/// One step of a run over `s`: an epsilon edge keeps the input position,
/// a predicate edge accepting the character there advances it by one.
pub open spec fn run_step(m: StateMachine, s: Seq<char>, a: (int, int), b: (int, int)) -> bool {
    0 <= a.0 < m.states@.len() && exists|j: int|
        0 <= j < m.states@[a.0].transitions@.len() && (#[trigger] m.states@[a.0].transitions@[
        j]).1.0 == b.0 && (match m.states@[a.0].transitions@[j].0 {
            TransitionLabel::Epsilon => b.1 == a.1,
            TransitionLabel::Pred(p) => 0 <= a.1 < s.len() && pred_matches(p, s[a.1]) && b.1 == a.1
                + 1,
        })
}

/// Is `p` a run over `s`: each consecutive pair of (state, position)
/// entries is one step.
pub open spec fn is_run(m: StateMachine, s: Seq<char>, p: Seq<(int, int)>) -> bool {
    p.len() >= 1 && forall|k: int| 0 <= k < p.len() - 1 ==> run_step(m, s, #[trigger] p[k], p[k + 1])
}

/// Does a run lead from the initial state at position 0 to the accept
/// state with all of `s` consumed?
pub open spec fn has_accepting_run(m: StateMachine, s: Seq<char>) -> bool {
    &&& m.initial_state is Some
    &&& m.accept_state is Some
    &&& exists|p: Seq<(int, int)>|
        #[trigger] is_run(m, s, p) && p[0] == (m.initial_state->Some_0.0 as int, 0int) && p.last()
            == (m.accept_state->Some_0.0 as int, s.len() as int)
}

/// Every frontier is closed under epsilon edges.
proof fn lemma_frontier_closed_under_eps(m: StateMachine, input: Seq<char>, a: int, b: int)
    requires
        frontier_after(m, input).contains(a),
        eps_step(m, a, b),
    ensures
        frontier_after(m, input).contains(b),
{
    if input.len() == 0 {
        lemma_reach_extend(m, init_set(m), a, b);
    } else {
        lemma_reach_extend(
            m,
            char_step(m, frontier_after(m, input.drop_last()), input.last()),
            a,
            b,
        );
    }
}

/// A predicate edge accepted at the frontier lands its target in the next
/// frontier.
proof fn lemma_frontier_char_step(m: StateMachine, s: Seq<char>, pos: int, a: int, j: int)
    requires
        0 <= pos < s.len(),
        frontier_after(m, s.take(pos)).contains(a),
        0 <= a < m.states@.len(),
        0 <= j < m.states@[a].transitions@.len(),
        (match m.states@[a].transitions@[j].0 {
            TransitionLabel::Pred(p) => pred_matches(p, s[pos]),
            TransitionLabel::Epsilon => false,
        }),
    ensures
        frontier_after(m, s.take(pos + 1)).contains(m.states@[a].transitions@[j].1.0 as int),
{
    let pre = s.take(pos);
    let post = s.take(pos + 1);
    assert(post.drop_last() =~= pre);
    assert(post.last() == s[pos]);
    let t = m.states@[a].transitions@[j].1.0 as int;
    assert(char_step(m, frontier_after(m, pre), s[pos]).contains(t));
    lemma_reach_self(m, char_step(m, frontier_after(m, pre), s[pos]), t);
}

/// Every entry of a run from the initial state sits in the frontier of
/// the input consumed so far.
proof fn lemma_run_position(m: StateMachine, s: Seq<char>, p: Seq<(int, int)>, k: int)
    requires
        m.initial_state is Some,
        is_run(m, s, p),
        p[0] == (m.initial_state->Some_0.0 as int, 0int),
        0 <= k < p.len(),
    ensures
        0 <= p[k].1 <= s.len(),
        frontier_after(m, s.take(p[k].1)).contains(p[k].0),
    decreases k,
{
    if k == 0 {
        assert(s.take(0) =~= Seq::<char>::empty());
        assert(init_set(m).contains(p[0].0));
        lemma_reach_self(m, init_set(m), p[0].0);
    } else {
        lemma_run_position(m, s, p, k - 1);
        assert(run_step(m, s, p[k - 1], p[k]));
        let a = p[k - 1];
        let b = p[k];
        let j = choose|j: int|
            0 <= j < m.states@[a.0].transitions@.len() && (#[trigger] m.states@[a.0].transitions@[
            j]).1.0 == b.0 && (match m.states@[a.0].transitions@[j].0 {
                TransitionLabel::Epsilon => b.1 == a.1,
                TransitionLabel::Pred(p) => 0 <= a.1 < s.len() && pred_matches(p, s[a.1]) && b.1
                    == a.1 + 1,
            });
        match m.states@[a.0].transitions@[j].0 {
            TransitionLabel::Epsilon => {
                assert(eps_step(m, a.0, b.0));
                lemma_frontier_closed_under_eps(m, s.take(a.1), a.0, b.0);
            },
            TransitionLabel::Pred(pd) => {
                lemma_frontier_char_step(m, s, a.1, a.0, j);
            },
        }
    }
}

/// An accepting run implies acceptance by the frontier simulation.
proof fn lemma_run_implies_accepts(m: StateMachine, s: Seq<char>)
    requires
        has_accepting_run(m, s),
    ensures
        sm_accepts(m, s),
{
    let p = choose|p: Seq<(int, int)>|
        #[trigger] is_run(m, s, p) && p[0] == (m.initial_state->Some_0.0 as int, 0int) && p.last()
            == (m.accept_state->Some_0.0 as int, s.len() as int);
    lemma_run_position(m, s, p, p.len() - 1);
    assert(s.take(s.len() as int) =~= s);
}

/// Every frontier member is reached by a run from the initial state.
proof fn lemma_frontier_member_run(m: StateMachine, s: Seq<char>, pos: int, st: int)
    requires
        m.initial_state is Some,
        0 <= pos <= s.len(),
        frontier_after(m, s.take(pos)).contains(st),
    ensures
        exists|p: Seq<(int, int)>|
            #[trigger] is_run(m, s, p) && p[0] == (m.initial_state->Some_0.0 as int, 0int)
                && p.last() == (st, pos),
    decreases pos,
{
    if pos == 0 {
        assert(s.take(0) =~= Seq::<char>::empty());
        let q = choose|q: Seq<int>|
            #[trigger] is_eps_path(m, q) && init_set(m).contains(q[0]) && q.last() == st;
        let p = Seq::new(q.len(), |k: int| (q[k], 0int));
        assert forall|k: int| 0 <= k < p.len() - 1 implies run_step(m, s, #[trigger] p[k], p[k + 1]) by {
            assert(eps_step(m, q[k], q[k + 1]));
        }
        assert(is_run(m, s, p));
        assert(p[0] == (m.initial_state->Some_0.0 as int, 0int));
        assert(p.last() == (st, pos));
    } else {
        let pre = s.take(pos);
        assert(pre.drop_last() =~= s.take(pos - 1));
        assert(pre.last() == s[pos - 1]);
        let fr = frontier_after(m, s.take(pos - 1));
        let src_set = char_step(m, fr, s[pos - 1]);
        assert(frontier_after(m, pre) == eps_closure(m, src_set));
        let q = choose|q: Seq<int>|
            #[trigger] is_eps_path(m, q) && src_set.contains(q[0]) && q.last() == st;
        let (a, j) = choose|a: int, j: int|
            fr.contains(a) && 0 <= a < m.states@.len() && 0 <= j < m.states@[a].transitions@.len()
                && (match (#[trigger] m.states@[a].transitions@[j]).0 {
                TransitionLabel::Pred(pd) => pred_matches(pd, s[pos - 1]),
                TransitionLabel::Epsilon => false,
            }) && m.states@[a].transitions@[j].1.0 == q[0];
        lemma_frontier_member_run(m, s, pos - 1, a);
        let p1 = choose|p: Seq<(int, int)>|
            #[trigger] is_run(m, s, p) && p[0] == (m.initial_state->Some_0.0 as int, 0int)
                && p.last() == (a, pos - 1);
        let p2 = Seq::new(q.len(), |k: int| (q[k], pos));
        let p = p1 + p2;
        assert forall|k: int| 0 <= k < p.len() - 1 implies run_step(m, s, #[trigger] p[k], p[k + 1]) by {
            if k < p1.len() - 1 {
                assert(p[k] == p1[k] && p[k + 1] == p1[k + 1]);
                assert(run_step(m, s, p1[k], p1[k + 1]));
            } else if k == p1.len() - 1 {
                assert(p[k] == p1[p1.len() - 1]);
                assert(p[k + 1] == p2[0]);
                assert(run_step(m, s, (a, pos - 1), (q[0], pos)));
            } else {
                let i = k - p1.len();
                assert(p[k] == p2[i] && p[k + 1] == p2[i + 1]);
                assert(eps_step(m, q[i], q[i + 1]));
            }
        }
        assert(is_run(m, s, p));
        assert(p[0] == p1[0]);
        assert(p.last() == (st, pos));
    }
}

/// Law: the simulation accepts exactly when an accepting run exists — a
/// chain of epsilon and symbol-consuming edges from the initial state to
/// the accept state over the whole input.  This is what it means for the
/// automaton to accept a string, stated without the frontier.
pub proof fn lemma_accepts_iff_run(m: StateMachine, s: Seq<char>)
    requires
        m.initial_state is Some,
    ensures
        sm_accepts(m, s) == has_accepting_run(m, s),
{
    if has_accepting_run(m, s) {
        lemma_run_implies_accepts(m, s);
    }
    if sm_accepts(m, s) {
        assert(s.take(s.len() as int) =~= s);
        lemma_frontier_member_run(m, s, s.len() as int, m.accept_state->Some_0.0 as int);
    }
}

/// The set of indices whose mark is set.
pub open spec fn marked_set(bs: Seq<bool>) -> Set<int> {
    Set::new(|i: int| 0 <= i < bs.len() && bs[i])
}

/// How many marks are set.
pub open spec fn count_marked(bs: Seq<bool>) -> int
    decreases bs.len(),
{
    if bs.len() == 0 {
        0
    } else {
        count_marked(bs.drop_last()) + if bs.last() {
            1int
        } else {
            0int
        }
    }
}

proof fn lemma_count_marked_bounds(bs: Seq<bool>)
    ensures
        0 <= count_marked(bs) <= bs.len(),
    decreases bs.len(),
{
    if bs.len() > 0 {
        lemma_count_marked_bounds(bs.drop_last());
    }
}

proof fn lemma_count_marked_update(bs: Seq<bool>, i: int)
    requires
        0 <= i < bs.len(),
        !bs[i],
    ensures
        count_marked(bs.update(i, true)) == count_marked(bs) + 1,
    decreases bs.len(),
{
    let up = bs.update(i, true);
    if i == bs.len() - 1 {
        assert(up.drop_last() =~= bs.drop_last());
    } else {
        assert(up.drop_last() =~= bs.drop_last().update(i, true));
        lemma_count_marked_update(bs.drop_last(), i);
    }
}

/// Is the set closed under edges consumable without input?
pub open spec fn closed_under_eps(m: StateMachine, s: Set<int>) -> bool {
    forall|a: int, b: int| s.contains(a) && #[trigger] eps_step(m, a, b) ==> s.contains(b)
}

/// A state of `src` reaches itself by the one-state path.
proof fn lemma_reach_self(m: StateMachine, src: Set<int>, i: int)
    requires
        src.contains(i),
    ensures
        eps_reach(m, src, i),
{
    let p = seq![i];
    assert(is_eps_path(m, p));
    assert(src.contains(p[0]) && p.last() == i);
}

/// Reachability extends along one further epsilon edge.
proof fn lemma_reach_extend(m: StateMachine, src: Set<int>, s: int, t: int)
    requires
        eps_reach(m, src, s),
        eps_step(m, s, t),
    ensures
        eps_reach(m, src, t),
{
    let p = choose|p: Seq<int>| #[trigger] is_eps_path(m, p) && src.contains(p[0]) && p.last() == s;
    let p2 = p.push(t);
    assert forall|k: int| 0 <= k < p2.len() - 1 implies eps_step(m, #[trigger] p2[k], p2[k + 1]) by {
        if k < p.len() - 1 {
            assert(p2[k] == p[k] && p2[k + 1] == p[k + 1]);
            assert(eps_step(m, p[k], p[k + 1]));
        } else {
            assert(p2[k] == p.last() && p2[k + 1] == t);
        }
    }
    assert(is_eps_path(m, p2));
    assert(src.contains(p2[0]) && p2.last() == t);
}

/// A set closed under epsilon edges and containing `src` contains every
/// state of every epsilon path out of `src`.
proof fn lemma_path_in_closed(m: StateMachine, s: Set<int>, src: Set<int>, p: Seq<int>)
    requires
        closed_under_eps(m, s),
        forall|i: int| src.contains(i) ==> s.contains(i),
        is_eps_path(m, p),
        src.contains(p[0]),
    ensures
        s.contains(p.last()),
    decreases p.len(),
{
    if p.len() == 1 {
    } else {
        let q = p.drop_last();
        assert forall|k: int| 0 <= k < q.len() - 1 implies eps_step(m, #[trigger] q[k], q[k + 1]) by {
            assert(q[k] == p[k] && q[k + 1] == p[k + 1]);
            assert(eps_step(m, p[k], p[k + 1]));
        }
        assert(is_eps_path(m, q));
        assert(q[0] == p[0]);
        lemma_path_in_closed(m, s, src, q);
        assert(eps_step(m, p[p.len() - 2], p[p.len() - 1]));
        assert(q.last() == p[p.len() - 2]);
    }
}


/// An empty frontier stays empty: no further symbol can revive it.
proof fn lemma_frontier_empty_stays(m: StateMachine, input: Seq<char>, k: int, j: int)
    requires
        0 <= k <= j <= input.len(),
        frontier_after(m, input.take(k)) == Set::<int>::empty(),
    ensures
        frontier_after(m, input.take(j)) == Set::<int>::empty(),
    decreases j - k,
{
    if j > k {
        lemma_frontier_empty_stays(m, input, k, j - 1);
        let pre = input.take(j);
        assert(pre.drop_last() =~= input.take(j - 1));
        let stepped = char_step(m, frontier_after(m, pre.drop_last()), pre.last());
        assert(stepped =~= Set::<int>::empty());
        assert forall|x: int| !(#[trigger] eps_closure(m, stepped).contains(x)) by {
            if eps_closure(m, stepped).contains(x) {
                let p = choose|p: Seq<int>| #[trigger] is_eps_path(m, p) && stepped.contains(p[0])
                    && p.last() == x;
            }
        }
        assert(frontier_after(m, pre) =~= Set::<int>::empty());
        assert(input.take(j) == pre);
    }
}

/// Is any mark set?
fn any_marked(marks: &Vec<bool>) -> (r: bool)
    ensures
        r == exists|i: int| 0 <= i < marks@.len() && marks@[i],
{
    let n = marks.len();
    let mut k: usize = 0;
    while k < n
        invariant
            n == marks@.len(),
            k <= n,
            forall|i: int| 0 <= i < k ==> !marks@[i],
        decreases n - k,
    {
        if marks[k] {
            return true;
        }
        k = k + 1;
    }
    false
}

impl StateMachine {
    /// Is the automaton well formed: every state's id is its arena index,
    /// and every edge targets a state of the arena.
    pub open spec fn wf(self) -> bool {
        &&& forall|i: int|
            0 <= i < self.states@.len() ==> (#[trigger] self.states@[i]).id.0 == i
        &&& forall|i: int, j: int|
            0 <= i < self.states@.len() && 0 <= j < self.states@[i].transitions@.len() ==> (
            #[trigger] self.states@[i].transitions@[j]).1.0 < self.states@.len()
    }

    /// Saturate the marks under epsilon edges: afterwards exactly the
    /// epsilon-closure of the initially marked states is marked.
    fn close_marks(&self, marks: &mut Vec<bool>)
        requires
            self.wf(),
            old(marks)@.len() == self.states@.len(),
        ensures
            final(marks)@.len() == old(marks)@.len(),
            marked_set(final(marks)@) == eps_closure(*self, marked_set(old(marks)@)),
    {
        let ghost orig = marked_set(old(marks)@);
        let n = self.states.len();
        proof {
            assert forall|i: int| 0 <= i < n && marks@[i] implies eps_reach(*self, orig, i) by {
                lemma_reach_self(*self, orig, i);
            }
        }
        let mut changed: bool = true;
        while changed
            invariant
                self.wf(),
                n == self.states@.len(),
                marks@.len() == n,
                forall|i: int| orig.contains(i) ==> 0 <= i < n && marks@[i],
                forall|i: int| 0 <= i < n && marks@[i] ==> eps_reach(*self, orig, i),
                !changed ==> closed_under_eps(*self, marked_set(marks@)),
            decreases (n + 1) - count_marked(marks@), (if changed { 1int } else { 0int }),
        {
            let ghost start = marks@;
            let ghost count_start = count_marked(marks@);
            changed = false;
            let mut s: usize = 0;
            while s < n
                invariant
                    self.wf(),
                    n == self.states@.len(),
                    marks@.len() == n,
                    s <= n,
                    forall|i: int| orig.contains(i) ==> 0 <= i < n && marks@[i],
                    forall|i: int| 0 <= i < n && marks@[i] ==> eps_reach(*self, orig, i),
                    forall|i: int| 0 <= i < n && start[i] ==> marks@[i],
                    count_marked(marks@) >= count_start,
                    changed ==> count_marked(marks@) > count_start,
                    !changed ==> marks@ == start,
                    !changed ==> forall|a: int, b: int|
                        0 <= a < s && marks@[a] && #[trigger] eps_step(*self, a, b) ==> marks@[b],
                decreases n - s,
            {
                if marks[s] {
                    let ts_len = self.states[s].transitions.len();
                    let mut j: usize = 0;
                    while j < ts_len
                        invariant
                            self.wf(),
                            n == self.states@.len(),
                            marks@.len() == n,
                            s < n,
                            marks@[s as int],
                            ts_len == self.states@[s as int].transitions@.len(),
                            j <= ts_len,
                            forall|i: int| orig.contains(i) ==> 0 <= i < n && marks@[i],
                            forall|i: int| 0 <= i < n && marks@[i] ==> eps_reach(*self, orig, i),
                            forall|i: int| 0 <= i < n && start[i] ==> marks@[i],
                            count_marked(marks@) >= count_start,
                            changed ==> count_marked(marks@) > count_start,
                            !changed ==> marks@ == start,
                            !changed ==> forall|a: int, b: int|
                                0 <= a < s && marks@[a] && #[trigger] eps_step(*self, a, b)
                                    ==> marks@[b],
                            !changed ==> forall|jj: int|
                                0 <= jj < j && (#[trigger] self.states@[s as int].transitions@[jj]).0
                                    is Epsilon ==> marks@[self.states@[
                                    s as int].transitions@[jj].1.0 as int],
                        decreases ts_len - j,
                    {
                        let is_eps: bool = matches!(
                            &self.states[s].transitions[j].0,
                            TransitionLabel::Epsilon
                        );
                        if is_eps {
                            let t = self.states[s].transitions[j].1;
                            if !marks[t.0] {
                                proof {
                                    assert(eps_step(*self, s as int, t.0 as int));
                                    lemma_reach_extend(*self, orig, s as int, t.0 as int);
                                    lemma_count_marked_update(marks@, t.0 as int);
                                }
                                marks[t.0] = true;
                                changed = true;
                            }
                        }
                        j = j + 1;
                    }
                }
                s = s + 1;
            }
            proof {
                if !changed {
                    assert forall|a: int, b: int|
                        marked_set(marks@).contains(a) && #[trigger] eps_step(*self, a, b) implies
                        marked_set(marks@).contains(b) by {
                        assert(0 <= a < n && marks@[a]);
                        assert(0 <= b < n) by {
                            assert(eps_step(*self, a, b));
                        }
                    }
                }
                lemma_count_marked_bounds(marks@);
            }
        }
        proof {
            assert forall|i: int| eps_reach(*self, orig, i) implies marked_set(marks@).contains(
                i,
            ) by {
                let p = choose|p: Seq<int>| #[trigger] is_eps_path(*self, p) && orig.contains(p[0])
                    && p.last() == i;
                lemma_path_in_closed(*self, marked_set(marks@), orig, p);
            }
            assert(marked_set(marks@) =~= eps_closure(*self, orig));
        }
    }

    /// All states one predicate-accepted edge away from the marked states
    /// on symbol `c`.
    fn step_marks(&self, marks: &Vec<bool>, c: char) -> (r: Vec<bool>)
        requires
            self.wf(),
            marks@.len() == self.states@.len(),
        ensures
            r@.len() == marks@.len(),
            marked_set(r@) == char_step(*self, marked_set(marks@), c),
    {
        let ghost src = marked_set(marks@);
        let n = self.states.len();
        let mut out: Vec<bool> = Vec::new();
        while out.len() < n
            invariant
                out@.len() <= n,
                forall|i: int| 0 <= i < out@.len() ==> !out@[i],
            decreases n - out@.len(),
        {
            out.push(false);
        }
        let mut s: usize = 0;
        while s < n
            invariant
                self.wf(),
                n == self.states@.len(),
                marks@.len() == n,
                out@.len() == n,
                s <= n,
                src == marked_set(marks@),
                forall|t: int| 0 <= t < n && out@[t] ==> char_step(*self, src, c).contains(t),
                forall|a: int, jj: int|
                    0 <= a < s && marks@[a] && 0 <= jj < self.states@[a].transitions@.len() && (match (
                    #[trigger] self.states@[a].transitions@[jj]).0 {
                        TransitionLabel::Pred(p) => pred_matches(p, c),
                        TransitionLabel::Epsilon => false,
                    }) ==> out@[self.states@[a].transitions@[jj].1.0 as int],
            decreases n - s,
        {
            if marks[s] {
                let ts_len = self.states[s].transitions.len();
                let mut j: usize = 0;
                while j < ts_len
                    invariant
                        self.wf(),
                        n == self.states@.len(),
                        marks@.len() == n,
                        out@.len() == n,
                        s < n,
                        marks@[s as int],
                        src == marked_set(marks@),
                        ts_len == self.states@[s as int].transitions@.len(),
                        j <= ts_len,
                        forall|t: int| 0 <= t < n && out@[t] ==> char_step(*self, src, c).contains(
                            t,
                        ),
                        forall|a: int, jj: int|
                            0 <= a < s && marks@[a] && 0 <= jj < self.states@[a].transitions@.len()
                                && (match (#[trigger] self.states@[a].transitions@[jj]).0 {
                                TransitionLabel::Pred(p) => pred_matches(p, c),
                                TransitionLabel::Epsilon => false,
                            }) ==> out@[self.states@[a].transitions@[jj].1.0 as int],
                        forall|jj: int|
                            0 <= jj < j && (match (#[trigger] self.states@[
                            s as int].transitions@[jj]).0 {
                                TransitionLabel::Pred(p) => pred_matches(p, c),
                                TransitionLabel::Epsilon => false,
                            }) ==> out@[self.states@[s as int].transitions@[jj].1.0 as int],
                    decreases ts_len - j,
                {
                    let hit: bool = match &self.states[s].transitions[j].0 {
                        TransitionLabel::Pred(p) => pred_test(p, c),
                        TransitionLabel::Epsilon => false,
                    };
                    if hit {
                        let t = self.states[s].transitions[j].1;
                        proof {
                            assert(char_step(*self, src, c).contains(t.0 as int));
                        }
                        out[t.0] = true;
                    }
                    j = j + 1;
                }
            }
            s = s + 1;
        }
        proof {
            assert forall|t: int| char_step(*self, src, c).contains(t) implies (0 <= t < n
                && out@[t]) by {
                let (a, jj) = choose|a: int, jj: int|
                    src.contains(a) && 0 <= a < self.states@.len() && 0 <= jj < self.states@[
                    a].transitions@.len() && (match (#[trigger] self.states@[a].transitions@[jj]).0 {
                        TransitionLabel::Pred(p) => pred_matches(p, c),
                        TransitionLabel::Epsilon => false,
                    }) && self.states@[a].transitions@[jj].1.0 == t;
            }
            assert(marked_set(out@) =~= char_step(*self, src, c));
        }
        out
    }

    /// Does the automaton accept the whole input?  Simulation without
    /// backtracking: the marked frontier is stepped over each symbol and
    /// re-closed; acceptance is exactly the path-based model `sm_accepts`,
    /// equivalently the existence of an accepting run over the input.
    pub fn matches(&self, input: &str) -> (r: bool)
        requires
            self.wf(),
            match self.initial_state {
                Option::Some(s) => s.0 < self.states@.len(),
                Option::None => false,
            },
            self.accept_state is Some,
        ensures
            r == sm_accepts(*self, input@),
            r == has_accepting_run(*self, input@),
    {
        let n = self.states.len();
        let len = input.unicode_len();
        let mut marks: Vec<bool> = Vec::new();
        while marks.len() < n
            invariant
                marks@.len() <= n,
                forall|i: int| 0 <= i < marks@.len() ==> !marks@[i],
            decreases n - marks@.len(),
        {
            marks.push(false);
        }
        let init: StateId = match self.initial_state {
            Option::Some(s) => s,
            Option::None => {
                proof {
                    assert(false);
                }
                StateId(0)
            },
        };
        marks[init.0] = true;
        proof {
            assert(marked_set(marks@) =~= init_set(*self));
        }
        self.close_marks(&mut marks);
        proof {
            assert(input@.take(0) =~= Seq::<char>::empty());
        }
        let mut idx: usize = 0;
        while idx < len
            invariant
                self.wf(),
                self.initial_state is Some,
                self.accept_state is Some,
                n == self.states@.len(),
                len == input@.len(),
                idx <= len,
                marks@.len() == n,
                marked_set(marks@) == frontier_after(*self, input@.take(idx as int)),
            decreases len - idx,
        {
            let c = input.get_char(idx);
            let stepped = self.step_marks(&marks, c);
            marks = stepped;
            self.close_marks(&mut marks);
            proof {
                let pre = input@.take(idx as int);
                let post = input@.take(idx as int + 1);
                assert(post.drop_last() =~= pre);
                assert(post.last() == input@[idx as int]);
            }
            idx = idx + 1;
            if !any_marked(&marks) {
                proof {
                    assert(marked_set(marks@) =~= Set::<int>::empty());
                    lemma_frontier_empty_stays(*self, input@, idx as int, len as int);
                    assert(input@.take(len as int) =~= input@);
                    lemma_accepts_iff_run(*self, input@);
                }
                return false;
            }
        }
        proof {
            assert(input@.take(len as int) =~= input@);
            lemma_accepts_iff_run(*self, input@);
        }
        let accept: StateId = match self.accept_state {
            Option::Some(a) => a,
            Option::None => {
                proof {
                    assert(false);
                }
                StateId(0)
            },
        };
        if accept.0 < n {
            marks[accept.0]
        } else {
            false
        }
    }
}

} // verus!
