//! Tree-level matching semantics: which inputs a resolved syntax tree
//! denotes, one clause per node shape.  Concatenation splits the input
//! among the children, alternation picks a branch, a star consumes zero or
//! more non-empty rounds of its inner tree, and a bounded repetition
//! concatenates between `min` and `max` matches of its inner tree.  Named
//! classes are read from the same registry that compilation uses.
//!
//! The laws at the end speak of this relation: the bound of a repetition
//! admits exactly the counted concatenations, and alternation does not
//! care for the order of its branches.

use vstd::prelude::*;

use crate::compiler::class_lookup;
use crate::parser::SpecAst;
use crate::parser::BracketExpressionItem;
use crate::sm::items_contain;
use crate::sm::pred_matches;
use crate::sm::Predicate;

verus! {

/// Does the resolved tree `ast` denote the input `s`?
pub open spec fn ast_matches(ast: SpecAst, reg: Seq<(Seq<char>, Predicate)>, s: Seq<char>) -> bool
    decreases ast, s.len(), 0int,
{
    match ast {
        SpecAst::Literal(c) => s == seq![c],
        SpecAst::Dot => s.len() == 1,
        SpecAst::CharClass(name) => s.len() == 1 && (match class_lookup(reg, name) {
            Option::Some(p) => pred_matches(p, s[0]),
            Option::None => false,
        }),
        SpecAst::BracketExpression { negated, items } => s.len() == 1 && (items_contain(items, s[0])
            != negated),
        SpecAst::Variable(_) => false,
        SpecAst::Concat(ch) => cat_matches(ch, 0, reg, s),
        SpecAst::Group(ch) => cat_matches(ch, 0, reg, s),
        SpecAst::Alteration(ch) => alt_matches(ch, 0, reg, s),
        SpecAst::Star(ch) => star_matches(ch, reg, s),
        SpecAst::Plus(ch) => exists|i: int|
            0 <= i <= s.len() && cat_matches(ch, 0, reg, #[trigger] s.take(i)) && star_matches(
                ch,
                reg,
                s.skip(i),
            ),
        SpecAst::Question(ch) => s.len() == 0 || cat_matches(ch, 0, reg, s),
        SpecAst::Repetition { node, min, max } => {
            match max {
                Option::None => exists|k: int|
                    min <= k && #[trigger] count_matches(node, k, reg, s),
                Option::Some(m) => rep_range_matches(node, min as int, m as int, reg, s),
            }
        },
    }
}

/// Do the children from `k` on denote `s`, split among them in order?
pub open spec fn cat_matches(
    ch: Seq<SpecAst>,
    k: int,
    reg: Seq<(Seq<char>, Predicate)>,
    s: Seq<char>,
) -> bool
    decreases ch, s.len(), 1int + ch.len() - k,
{
    if k < 0 || k >= ch.len() {
        s.len() == 0
    } else {
        exists|i: int|
            0 <= i <= s.len() && ast_matches(ch[k], reg, #[trigger] s.take(i)) && cat_matches(
                ch,
                k + 1,
                reg,
                s.skip(i),
            )
    }
}

/// Does some branch from `k` on denote `s`?
pub open spec fn alt_matches(
    ch: Seq<SpecAst>,
    k: int,
    reg: Seq<(Seq<char>, Predicate)>,
    s: Seq<char>,
) -> bool
    decreases ch, s.len(), 1int + ch.len() - k,
{
    if k < 0 || k >= ch.len() {
        false
    } else {
        ast_matches(ch[k], reg, s) || alt_matches(ch, k + 1, reg, s)
    }
}

/// Does `s` fall into a counted number of parts, the count lying between
/// `lo` and `hi` inclusively, each part denoted by the chained children?
pub open spec fn rep_range_matches(
    ch: Seq<SpecAst>,
    lo: int,
    hi: int,
    reg: Seq<(Seq<char>, Predicate)>,
    s: Seq<char>,
) -> bool
    decreases ch, s.len(), (if 0 <= lo && lo <= hi {
        4int + ch.len() + 2 * hi - lo
    } else {
        0int
    }),
{
    if lo < 0 || lo > hi {
        false
    } else {
        count_matches(ch, lo, reg, s) || rep_range_matches(ch, lo + 1, hi, reg, s)
    }
}

/// Does `s` fall into zero or more non-empty rounds, each denoted by the
/// chained children?
pub open spec fn star_matches(
    ch: Seq<SpecAst>,
    reg: Seq<(Seq<char>, Predicate)>,
    s: Seq<char>,
) -> bool
    decreases ch, s.len(), 2int + ch.len(),
{
    s.len() == 0 || (exists|i: int|
        1 <= i <= s.len() && cat_matches(ch, 0, reg, #[trigger] s.take(i)) && star_matches(
            ch,
            reg,
            s.skip(i),
        ))
}

/// Does `s` fall into exactly `n` parts, each denoted by the chained
/// children?
pub open spec fn count_matches(
    ch: Seq<SpecAst>,
    n: int,
    reg: Seq<(Seq<char>, Predicate)>,
    s: Seq<char>,
) -> bool
    decreases ch, s.len(), (if n >= 0 { 3int + ch.len() + n } else { 3int }),
{
    if n < 0 {
        false
    } else if n == 0 {
        s.len() == 0
    } else {
        exists|i: int|
            0 <= i <= s.len() && cat_matches(ch, 0, reg, #[trigger] s.take(i)) && count_matches(
                ch,
                n - 1,
                reg,
                s.skip(i),
            )
    }
}

/// Law: the quantifier bound.  A repetition of `inner` between `min` and
/// `max` denotes exactly the inputs formed by concatenating a counted
/// number of matches of `inner`, the count lying inclusively between the
/// bounds; a count outside the bounds does not qualify.
pub proof fn lemma_quantifier_bound_law(
    inner: Seq<SpecAst>,
    min: u32,
    max: u32,
    reg: Seq<(Seq<char>, Predicate)>,
    s: Seq<char>,
)
    ensures
        ast_matches(
            SpecAst::Repetition { node: inner, min: min, max: Option::Some(max) },
            reg,
            s,
        ) <==> exists|k: int| min <= k <= max && #[trigger] count_matches(inner, k, reg, s),
{
    let ast = SpecAst::Repetition { node: inner, min: min, max: Option::Some(max) };
    assert(ast_matches(ast, reg, s) == rep_range_matches(inner, min as int, max as int, reg, s));
    lemma_rep_range_exists(inner, min as int, max as int, reg, s);
}

proof fn lemma_rep_range_exists(
    ch: Seq<SpecAst>,
    lo: int,
    hi: int,
    reg: Seq<(Seq<char>, Predicate)>,
    s: Seq<char>,
)
    requires
        0 <= lo,
    ensures
        rep_range_matches(ch, lo, hi, reg, s) <==> (exists|k: int|
            lo <= k <= hi && #[trigger] count_matches(ch, k, reg, s)),
    decreases hi - lo + 1,
{
    if lo <= hi {
        lemma_rep_range_exists(ch, lo + 1, hi, reg, s);
        if rep_range_matches(ch, lo, hi, reg, s) {
            if count_matches(ch, lo, reg, s) {
                assert(lo <= lo <= hi && count_matches(ch, lo, reg, s));
            } else {
                let k0 = choose|k: int|
                    lo + 1 <= k <= hi && #[trigger] count_matches(ch, k, reg, s);
                assert(lo <= k0 <= hi && count_matches(ch, k0, reg, s));
            }
        }
        if exists|k: int| lo <= k <= hi && #[trigger] count_matches(ch, k, reg, s) {
            let k0 = choose|k: int| lo <= k <= hi && #[trigger] count_matches(ch, k, reg, s);
            if k0 == lo {
                assert(count_matches(ch, lo, reg, s));
            } else {
                assert(lo + 1 <= k0 <= hi && count_matches(ch, k0, reg, s));
            }
        }
    }
}

/// `alt_matches` holds exactly when some branch from `k` on denotes `s`.
proof fn lemma_alt_exists(
    ch: Seq<SpecAst>,
    k: int,
    reg: Seq<(Seq<char>, Predicate)>,
    s: Seq<char>,
)
    requires
        0 <= k,
    ensures
        alt_matches(ch, k, reg, s) <==> (exists|j: int|
            k <= j < ch.len() && ast_matches(#[trigger] ch[j], reg, s)),
    decreases ch.len() - k,
{
    if k < ch.len() {
        lemma_alt_exists(ch, k + 1, reg, s);
        if alt_matches(ch, k, reg, s) {
            if ast_matches(ch[k], reg, s) {
                assert(k <= k < ch.len() && ast_matches(ch[k], reg, s));
            } else {
                let j0 = choose|j: int|
                    k + 1 <= j < ch.len() && ast_matches(#[trigger] ch[j], reg, s);
                assert(k <= j0 < ch.len() && ast_matches(ch[j0], reg, s));
            }
        }
        if exists|j: int| k <= j < ch.len() && ast_matches(#[trigger] ch[j], reg, s) {
            let j0 = choose|j: int| k <= j < ch.len() && ast_matches(#[trigger] ch[j], reg, s);
            if j0 == k {
                assert(ast_matches(ch[k], reg, s));
            } else {
                assert(k + 1 <= j0 < ch.len() && ast_matches(ch[j0], reg, s));
            }
        }
    }
}

/// Law: alternation is order-independent.  Two alternations whose branch
/// lists hold the same branches — in particular, one a reordering of the
/// other — denote exactly the same inputs.
pub proof fn lemma_alternation_order_independent(
    b1: Seq<SpecAst>,
    b2: Seq<SpecAst>,
    reg: Seq<(Seq<char>, Predicate)>,
    s: Seq<char>,
)
    requires
        forall|x: SpecAst| b1.contains(x) <==> b2.contains(x),
    ensures
        ast_matches(SpecAst::Alteration(b1), reg, s) == ast_matches(
            SpecAst::Alteration(b2),
            reg,
            s,
        ),
{
    assert(ast_matches(SpecAst::Alteration(b1), reg, s) == alt_matches(b1, 0, reg, s));
    assert(ast_matches(SpecAst::Alteration(b2), reg, s) == alt_matches(b2, 0, reg, s));
    lemma_alt_exists(b1, 0, reg, s);
    lemma_alt_exists(b2, 0, reg, s);
    if alt_matches(b1, 0, reg, s) {
        let k = choose|k: int| 0 <= k < b1.len() && ast_matches(#[trigger] b1[k], reg, s);
        assert(b1.contains(b1[k]));
        assert(b2.contains(b1[k]));
        let j = choose|j: int| 0 <= j < b2.len() && b2[j] == b1[k];
        assert(ast_matches(b2[j], reg, s));
    }
    if alt_matches(b2, 0, reg, s) {
        let k = choose|k: int| 0 <= k < b2.len() && ast_matches(#[trigger] b2[k], reg, s);
        assert(b2.contains(b2[k]));
        assert(b1.contains(b2[k]));
        let j = choose|j: int| 0 <= j < b1.len() && b1[j] == b2[k];
        assert(ast_matches(b1[j], reg, s));
    }
}


/// Law: the bracket negation partition, restated over the tree semantics.
/// For any single character, exactly one of a bracket set and its negation
/// over the same items denotes it.
pub proof fn lemma_bracket_partition_in_tree(
    items: Seq<BracketExpressionItem>,
    c: char,
    reg: Seq<(Seq<char>, Predicate)>,
)
    ensures
        ast_matches(SpecAst::BracketExpression { negated: false, items: items }, reg, seq![c])
            != ast_matches(
            SpecAst::BracketExpression { negated: true, items: items },
            reg,
            seq![c],
        ),
{
    assert(seq![c].len() == 1 && seq![c][0] == c);
}

} // verus!
