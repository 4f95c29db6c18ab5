use crate::coef::{Coefficient, Scalar};
use crate::symbol::{share, Symbol};
use std::sync::Arc;
use vstd::prelude::*;

verus! {

broadcast use vstd::std_specs::vec::group_vec_axioms;

/// A symbolic expression: a constant, a symbol, a sum, a product or a power.
#[derive(Debug)]
pub enum Expr<C> {
    Const(C),
    Symbol(Arc<Symbol>),
    Add(Vec<Expr<C>>),
    Mul(Vec<Expr<C>>),
    Pow(Box<Expr<C>>, Box<Expr<C>>),
}

/// The mathematical model of an expression: the same tree, with constants
/// by their views, symbols by their names and operands as sequences.
pub enum SExpr<V> {
    Const(V),
    Symbol(Seq<char>),
    Add(Seq<SExpr<V>>),
    Mul(Seq<SExpr<V>>),
    Pow(Box<SExpr<V>>, Box<SExpr<V>>),
}

pub open spec fn expr_view<C: View>(e: Expr<C>) -> SExpr<C::V>
    decreases e,
{
    match e {
        Expr::Const(c) => SExpr::Const(c@),
        Expr::Symbol(s) => SExpr::Symbol(s@),
        Expr::Add(t) => SExpr::Add(views(t@)),
        Expr::Mul(t) => SExpr::Mul(views(t@)),
        Expr::Pow(a, b) => SExpr::Pow(Box::new(expr_view(*a)), Box::new(expr_view(*b))),
    }
}

/// The models of a sequence of expressions.
pub open spec fn views<C: View>(t: Seq<Expr<C>>) -> Seq<SExpr<C::V>>
    decreases t,
{
    Seq::new(
        t.len(),
        |i: int|
            if 0 <= i < t.len() {
                expr_view(t[i])
            } else {
                SExpr::Add(Seq::empty())
            },
    )
}

impl<C: View> View for Expr<C> {
    type V = SExpr<C::V>;

    open spec fn view(&self) -> SExpr<C::V> {
        expr_view(*self)
    }
}

pub proof fn lemma_views_push<C: View>(t: Seq<Expr<C>>, x: Expr<C>)
    ensures
        views(t.push(x)) == views(t).push(x@),
{
    assert(views(t.push(x)) =~= views(t).push(x@));
}

pub proof fn lemma_views_add<C: View>(t: Seq<Expr<C>>, u: Seq<Expr<C>>)
    ensures
        views(t + u) == views(t) + views(u),
{
    assert(views(t + u) =~= views(t) + views(u));
}


// ---------------------------------------------------------------------------
// flatten
// ---------------------------------------------------------------------------

/// The operands that a flattened operand contributes to a sum.
pub open spec fn add_operands<V>(e: SExpr<V>) -> Seq<SExpr<V>> {
    match e {
        SExpr::Add(u) => u,
        _ => seq![e],
    }
}

/// The operands that a flattened operand contributes to a product.
pub open spec fn mul_operands<V>(e: SExpr<V>) -> Seq<SExpr<V>> {
    match e {
        SExpr::Mul(u) => u,
        _ => seq![e],
    }
}

/// A sum of `a`, where an empty sum is the constant zero and a sum of one
/// operand is that operand.
pub open spec fn make_add<C: Scalar>(a: Seq<SExpr<C::V>>) -> SExpr<C::V> {
    if a.len() == 0 {
        SExpr::Const(C::zero_v())
    } else if a.len() == 1 {
        a[0]
    } else {
        SExpr::Add(a)
    }
}

/// A product of `a`, where an empty product is the constant one and a
/// product of one operand is that operand.
pub open spec fn make_mul<C: Scalar>(a: Seq<SExpr<C::V>>) -> SExpr<C::V> {
    if a.len() == 0 {
        SExpr::Const(C::one_v())
    } else if a.len() == 1 {
        a[0]
    } else {
        SExpr::Mul(a)
    }
}

/// The expression with nested sums and nested products merged into their
/// parents, and sums and products of fewer than two operands replaced.
pub open spec fn flatten_s<C: Scalar>(e: SExpr<C::V>) -> SExpr<C::V>
    decreases e,
{
    match e {
        SExpr::Add(t) => make_add::<C>(flat_add_parts::<C>(t)),
        SExpr::Mul(t) => make_mul::<C>(flat_mul_parts::<C>(t)),
        SExpr::Pow(a, b) => SExpr::Pow(Box::new(flatten_s::<C>(*a)), Box::new(flatten_s::<C>(*b))),
        _ => e,
    }
}

/// The operands of a flattened sum of `t`, in order.
pub open spec fn flat_add_parts<C: Scalar>(t: Seq<SExpr<C::V>>) -> Seq<SExpr<C::V>>
    decreases t,
{
    if t.len() == 0 {
        Seq::empty()
    } else {
        flat_add_parts::<C>(t.subrange(0, t.len() - 1)) + add_operands(flatten_s::<C>(t[t.len() - 1]))
    }
}

/// The operands of a flattened product of `t`, in order.
pub open spec fn flat_mul_parts<C: Scalar>(t: Seq<SExpr<C::V>>) -> Seq<SExpr<C::V>>
    decreases t,
{
    if t.len() == 0 {
        Seq::empty()
    } else {
        flat_mul_parts::<C>(t.subrange(0, t.len() - 1)) + mul_operands(flatten_s::<C>(t[t.len() - 1]))
    }
}

/// No sum has a sum among its operands, no product a product, and every sum
/// and product has at least two operands.
pub open spec fn is_flat<V>(e: SExpr<V>) -> bool
    decreases e,
{
    match e {
        SExpr::Add(t) => t.len() >= 2 && forall|i: int|
            0 <= i < t.len() ==> !(#[trigger] t[i] is Add) && is_flat(t[i]),
        SExpr::Mul(t) => t.len() >= 2 && forall|i: int|
            0 <= i < t.len() ==> !(#[trigger] t[i] is Mul) && is_flat(t[i]),
        SExpr::Pow(a, b) => is_flat(*a) && is_flat(*b),
        _ => true,
    }
}

proof fn lemma_flat_add_parts<C: Scalar>(t: Seq<SExpr<C::V>>)
    requires
        forall|i: int| 0 <= i < t.len() ==> is_flat(flatten_s::<C>(#[trigger] t[i])),
    ensures
        forall|k: int|
            0 <= k < flat_add_parts::<C>(t).len() ==> !(#[trigger] flat_add_parts::<C>(t)[k] is Add)
                && is_flat(flat_add_parts::<C>(t)[k]),
    decreases t.len(),
{
    if t.len() > 0 {
        let init = t.subrange(0, t.len() - 1);
        assert forall|i: int| 0 <= i < init.len() implies is_flat(flatten_s::<C>(#[trigger] init[i])) by {
            assert(init[i] == t[i]);
        }
        lemma_flat_add_parts::<C>(init);
        let f = flatten_s::<C>(t[t.len() - 1]);
        assert(is_flat(f));
        let p = flat_add_parts::<C>(init);
        let q = add_operands(f);
        assert(flat_add_parts::<C>(t) == p + q);
        assert forall|k: int| 0 <= k < q.len() implies !(#[trigger] q[k] is Add) && is_flat(q[k]) by {
            match f {
                SExpr::Add(u) => {}
                _ => {}
            }
        }
        assert forall|k: int| 0 <= k < (p + q).len() implies !(#[trigger] (p + q)[k] is Add) && is_flat((p + q)[k]) by {
            if k < p.len() {
                assert((p + q)[k] == p[k]);
            } else {
                assert((p + q)[k] == q[k - p.len()]);
            }
        }
    }
}

proof fn lemma_flat_mul_parts<C: Scalar>(t: Seq<SExpr<C::V>>)
    requires
        forall|i: int| 0 <= i < t.len() ==> is_flat(flatten_s::<C>(#[trigger] t[i])),
    ensures
        forall|k: int|
            0 <= k < flat_mul_parts::<C>(t).len() ==> !(#[trigger] flat_mul_parts::<C>(t)[k] is Mul)
                && is_flat(flat_mul_parts::<C>(t)[k]),
    decreases t.len(),
{
    if t.len() > 0 {
        let init = t.subrange(0, t.len() - 1);
        assert forall|i: int| 0 <= i < init.len() implies is_flat(flatten_s::<C>(#[trigger] init[i])) by {
            assert(init[i] == t[i]);
        }
        lemma_flat_mul_parts::<C>(init);
        let f = flatten_s::<C>(t[t.len() - 1]);
        assert(is_flat(f));
        let p = flat_mul_parts::<C>(init);
        let q = mul_operands(f);
        assert(flat_mul_parts::<C>(t) == p + q);
        assert forall|k: int| 0 <= k < q.len() implies !(#[trigger] q[k] is Mul) && is_flat(q[k]) by {
            match f {
                SExpr::Mul(u) => {}
                _ => {}
            }
        }
        assert forall|k: int| 0 <= k < (p + q).len() implies !(#[trigger] (p + q)[k] is Mul) && is_flat((p + q)[k]) by {
            if k < p.len() {
                assert((p + q)[k] == p[k]);
            } else {
                assert((p + q)[k] == q[k - p.len()]);
            }
        }
    }
}

/// What `flatten` returns is flat.
pub proof fn lemma_flatten_is_flat<C: Scalar>(e: SExpr<C::V>)
    ensures
        is_flat(flatten_s::<C>(e)),
    decreases e,
{
    match e {
        SExpr::Add(t) => {
            assert forall|i: int| 0 <= i < t.len() implies is_flat(flatten_s::<C>(#[trigger] t[i])) by {
                lemma_flatten_is_flat::<C>(t[i]);
            }
            lemma_flat_add_parts::<C>(t);
        },
        SExpr::Mul(t) => {
            assert forall|i: int| 0 <= i < t.len() implies is_flat(flatten_s::<C>(#[trigger] t[i])) by {
                lemma_flatten_is_flat::<C>(t[i]);
            }
            lemma_flat_mul_parts::<C>(t);
        },
        SExpr::Pow(a, b) => {
            lemma_flatten_is_flat::<C>(*a);
            lemma_flatten_is_flat::<C>(*b);
        },
        _ => {},
    }
}

proof fn lemma_flat_parts_fixed<C: Scalar>(t: Seq<SExpr<C::V>>)
    requires
        forall|i: int| 0 <= i < t.len() ==> flatten_s::<C>(#[trigger] t[i]) == t[i],
    ensures
        (forall|i: int| 0 <= i < t.len() ==> !(#[trigger] t[i] is Add)) ==> flat_add_parts::<C>(t) == t,
        (forall|i: int| 0 <= i < t.len() ==> !(#[trigger] t[i] is Mul)) ==> flat_mul_parts::<C>(t) == t,
    decreases t.len(),
{
    if t.len() > 0 {
        let init = t.subrange(0, t.len() - 1);
        assert forall|i: int| 0 <= i < init.len() implies flatten_s::<C>(#[trigger] init[i]) == init[i] by {
            assert(init[i] == t[i]);
        }
        lemma_flat_parts_fixed::<C>(init);
        let x = t[t.len() - 1];
        if forall|i: int| 0 <= i < t.len() ==> !(#[trigger] t[i] is Add) {
            assert forall|i: int| 0 <= i < init.len() implies !(#[trigger] init[i] is Add) by {
                assert(init[i] == t[i]);
            }
            assert(add_operands(x) =~= seq![x]);
            assert(init + seq![x] =~= t);
        }
        if forall|i: int| 0 <= i < t.len() ==> !(#[trigger] t[i] is Mul) {
            assert forall|i: int| 0 <= i < init.len() implies !(#[trigger] init[i] is Mul) by {
                assert(init[i] == t[i]);
            }
            assert(mul_operands(x) =~= seq![x]);
            assert(init + seq![x] =~= t);
        }
    }
}

/// `flatten` leaves a flat expression as it is.
pub proof fn lemma_flatten_fixes_flat<C: Scalar>(e: SExpr<C::V>)
    requires
        is_flat(e),
    ensures
        flatten_s::<C>(e) == e,
    decreases e,
{
    match e {
        SExpr::Add(t) => {
            assert forall|i: int| 0 <= i < t.len() implies flatten_s::<C>(#[trigger] t[i]) == t[i] by {
                lemma_flatten_fixes_flat::<C>(t[i]);
            }
            lemma_flat_parts_fixed::<C>(t);
        },
        SExpr::Mul(t) => {
            assert forall|i: int| 0 <= i < t.len() implies flatten_s::<C>(#[trigger] t[i]) == t[i] by {
                lemma_flatten_fixes_flat::<C>(t[i]);
            }
            lemma_flat_parts_fixed::<C>(t);
        },
        SExpr::Pow(a, b) => {
            lemma_flatten_fixes_flat::<C>(*a);
            lemma_flatten_fixes_flat::<C>(*b);
        },
        _ => {},
    }
}

/// Flattening twice gives what flattening once gives.
pub proof fn law_flatten_idempotent<C: Scalar>(e: SExpr<C::V>)
    ensures
        flatten_s::<C>(flatten_s::<C>(e)) == flatten_s::<C>(e),
{
    lemma_flatten_is_flat::<C>(e);
    lemma_flatten_fixes_flat::<C>(flatten_s::<C>(e));
}

/// Whether the expression is recognisably zero: a zero constant, a sum of
/// zeros, a product with a zero operand, or a power of zero (so `0^0` is
/// recognisably zero, and also recognisably one).
pub open spec fn is_zero_s<C: Scalar>(e: SExpr<C::V>) -> bool
    decreases e,
{
    match e {
        SExpr::Const(c) => c == C::zero_v(),
        SExpr::Add(t) => all_zero::<C>(t),
        SExpr::Mul(t) => any_zero::<C>(t),
        SExpr::Pow(a, _) => is_zero_s::<C>(*a),
        SExpr::Symbol(_) => false,
    }
}

/// Whether every operand of `t` is recognisably zero.
pub open spec fn all_zero<C: Scalar>(t: Seq<SExpr<C::V>>) -> bool
    decreases t,
{
    t.len() == 0 || (all_zero::<C>(t.subrange(0, t.len() - 1)) && is_zero_s::<C>(t[t.len() - 1]))
}

/// Whether some operand of `t` is recognisably zero.
pub open spec fn any_zero<C: Scalar>(t: Seq<SExpr<C::V>>) -> bool
    decreases t,
{
    t.len() != 0 && (any_zero::<C>(t.subrange(0, t.len() - 1)) || is_zero_s::<C>(t[t.len() - 1]))
}

/// Whether the expression is recognisably one: a constant one, a sum whose
/// operands are each one or zero with exactly one of them one, a product of
/// ones, or a power with a zero exponent (so `0^0` is recognisably one, and
/// also recognisably zero).
pub open spec fn is_one_s<C: Scalar>(e: SExpr<C::V>) -> bool
    decreases e,
{
    match e {
        SExpr::Const(c) => c == C::one_v(),
        SExpr::Add(t) => all_one_or_zero::<C>(t) && count_ones::<C>(t) == 1,
        SExpr::Mul(t) => all_one::<C>(t),
        SExpr::Pow(_, b) => is_zero_s::<C>(*b),
        SExpr::Symbol(_) => false,
    }
}

/// Whether every operand of `t` is recognisably one or recognisably zero.
pub open spec fn all_one_or_zero<C: Scalar>(t: Seq<SExpr<C::V>>) -> bool
    decreases t,
{
    t.len() == 0 || (all_one_or_zero::<C>(t.subrange(0, t.len() - 1)) && (is_one_s::<C>(
        t[t.len() - 1],
    ) || is_zero_s::<C>(t[t.len() - 1])))
}

/// Whether every operand of `t` is recognisably one.
pub open spec fn all_one<C: Scalar>(t: Seq<SExpr<C::V>>) -> bool
    decreases t,
{
    t.len() == 0 || (all_one::<C>(t.subrange(0, t.len() - 1)) && is_one_s::<C>(t[t.len() - 1]))
}

/// How many operands of `t` are recognisably one.
pub open spec fn count_ones<C: Scalar>(t: Seq<SExpr<C::V>>) -> nat
    decreases t,
{
    if t.len() == 0 {
        0
    } else {
        count_ones::<C>(t.subrange(0, t.len() - 1)) + if is_one_s::<C>(t[t.len() - 1]) {
            1nat
        } else {
            0nat
        }
    }
}

/// Facts about the prefix of length `i + 1`.
pub proof fn lemma_prefix_step<V>(t: Seq<V>, i: int)
    requires
        0 <= i < t.len(),
    ensures
        t.subrange(0, i + 1).subrange(0, i) == t.subrange(0, i),
        t.subrange(0, i + 1)[i] == t[i],
        t.subrange(0, i + 1).len() == i + 1,
{
    assert(t.subrange(0, i + 1).subrange(0, i) =~= t.subrange(0, i));
}

proof fn lemma_count_ones_bound<C: Scalar>(t: Seq<SExpr<C::V>>)
    ensures
        count_ones::<C>(t) <= t.len(),
    decreases t.len(),
{
    if t.len() > 0 {
        lemma_count_ones_bound::<C>(t.subrange(0, t.len() - 1));
    }
}

/// A failure in a prefix is a failure of the whole sequence.
proof fn lemma_all_zero_prefix<C: Scalar>(t: Seq<SExpr<C::V>>, n: int)
    requires
        0 <= n <= t.len(),
        !all_zero::<C>(t.subrange(0, n)),
    ensures
        !all_zero::<C>(t),
    decreases t.len() - n,
{
    if n < t.len() {
        lemma_prefix_step(t, n);
        lemma_all_zero_prefix::<C>(t, n + 1);
    } else {
        assert(t.subrange(0, n) =~= t);
    }
}

proof fn lemma_any_zero_prefix<C: Scalar>(t: Seq<SExpr<C::V>>, n: int)
    requires
        0 <= n <= t.len(),
        any_zero::<C>(t.subrange(0, n)),
    ensures
        any_zero::<C>(t),
    decreases t.len() - n,
{
    if n < t.len() {
        lemma_prefix_step(t, n);
        lemma_any_zero_prefix::<C>(t, n + 1);
    } else {
        assert(t.subrange(0, n) =~= t);
    }
}

proof fn lemma_all_one_or_zero_prefix<C: Scalar>(t: Seq<SExpr<C::V>>, n: int)
    requires
        0 <= n <= t.len(),
        !all_one_or_zero::<C>(t.subrange(0, n)),
    ensures
        !all_one_or_zero::<C>(t),
    decreases t.len() - n,
{
    if n < t.len() {
        lemma_prefix_step(t, n);
        lemma_all_one_or_zero_prefix::<C>(t, n + 1);
    } else {
        assert(t.subrange(0, n) =~= t);
    }
}

proof fn lemma_all_one_prefix<C: Scalar>(t: Seq<SExpr<C::V>>, n: int)
    requires
        0 <= n <= t.len(),
        !all_one::<C>(t.subrange(0, n)),
    ensures
        !all_one::<C>(t),
    decreases t.len() - n,
{
    if n < t.len() {
        lemma_prefix_step(t, n);
        lemma_all_one_prefix::<C>(t, n + 1);
    } else {
        assert(t.subrange(0, n) =~= t);
    }
}

// ---------------------------------------------------------------------------
// equality up to the order of operands
// ---------------------------------------------------------------------------

/// Equality of expressions in which the operands of a sum, or of a product,
/// may stand in any order: every operand of `b` in turn is matched with the
/// first operand of `a` equal to it that no earlier operand took.
pub open spec fn expr_eq<V>(a: SExpr<V>, b: SExpr<V>) -> bool
    decreases a, 0int, 0int,
{
    match a {
        SExpr::Const(x) => b matches SExpr::Const(y) && x == y,
        SExpr::Symbol(x) => b matches SExpr::Symbol(y) && x == y,
        SExpr::Add(x) => match b {
            SExpr::Add(y) => x.len() == y.len() && match_operands(x, unused(x.len()), y, 0),
            _ => false,
        },
        SExpr::Mul(x) => match b {
            SExpr::Mul(y) => x.len() == y.len() && match_operands(x, unused(x.len()), y, 0),
            _ => false,
        },
        SExpr::Pow(a1, b1) => match b {
            SExpr::Pow(a2, b2) => expr_eq(*a1, *a2) && expr_eq(*b1, *b2),
            _ => false,
        },
    }
}

/// `n` flags, none of them set.
pub open spec fn unused(n: nat) -> Seq<bool> {
    Seq::new(n, |i: int| false)
}

/// Whether the operands `y[k..]` can each be matched, in turn, with the first
/// operand of `x` equal to it that is not yet taken (`used`).
pub open spec fn match_operands<V>(x: Seq<SExpr<V>>, used: Seq<bool>, y: Seq<SExpr<V>>, k: int) -> bool
    decreases x, y.len() - k, x.len() + 1,
{
    if k < 0 || k >= y.len() {
        true
    } else {
        match first_free_match(x, used, y[k], 0, y.len() - k) {
            Some(j) => match_operands(x, used.update(j, true), y, k + 1),
            None => false,
        }
    }
}

/// The first index from `j` on of an operand of `x` that is not taken and
/// equals `target`. (`budget` only measures the search's progress.)
pub open spec fn first_free_match<V>(
    x: Seq<SExpr<V>>,
    used: Seq<bool>,
    target: SExpr<V>,
    j: int,
    budget: int,
) -> Option<int>
    decreases x, budget, x.len() - j,
{
    if j < 0 || j >= x.len() {
        None
    } else if !used[j] && expr_eq(x[j], target) {
        Some(j)
    } else {
        first_free_match(x, used, target, j + 1, budget)
    }
}

/// The first `k` of `n` flags set.
pub open spec fn taken(n: nat, k: int) -> Seq<bool> {
    Seq::new(n, |i: int| i < k)
}

proof fn lemma_first_free_self<V>(x: Seq<SExpr<V>>, k: int, j: int, budget: int)
    requires
        0 <= j <= k < x.len(),
        expr_eq(x[k], x[k]),
    ensures
        first_free_match(x, taken(x.len(), k), x[k], j, budget) == Some(k),
    decreases k - j,
{
    if j < k {
        lemma_first_free_self(x, k, j + 1, budget);
    }
}

proof fn lemma_match_self<V>(x: Seq<SExpr<V>>, k: int)
    requires
        0 <= k <= x.len(),
        forall|i: int| 0 <= i < x.len() ==> expr_eq(#[trigger] x[i], x[i]),
    ensures
        match_operands(x, taken(x.len(), k), x, k),
    decreases x.len() - k,
{
    if k < x.len() {
        lemma_first_free_self(x, k, 0, x.len() - k);
        assert(taken(x.len(), k).update(k, true) =~= taken(x.len(), k + 1));
        lemma_match_self(x, k + 1);
    }
}

/// Every expression equals itself.
pub proof fn law_expr_eq_reflexive<V>(a: SExpr<V>)
    ensures
        expr_eq(a, a),
    decreases a,
{
    match a {
        SExpr::Add(x) => {
            assert forall|i: int| 0 <= i < x.len() implies expr_eq(#[trigger] x[i], x[i]) by {
                law_expr_eq_reflexive(x[i]);
            }
            lemma_match_self(x, 0);
            assert(unused(x.len()) =~= taken(x.len(), 0));
        },
        SExpr::Mul(x) => {
            assert forall|i: int| 0 <= i < x.len() implies expr_eq(#[trigger] x[i], x[i]) by {
                law_expr_eq_reflexive(x[i]);
            }
            lemma_match_self(x, 0);
            assert(unused(x.len()) =~= taken(x.len(), 0));
        },
        SExpr::Pow(a1, b1) => {
            law_expr_eq_reflexive(*a1);
            law_expr_eq_reflexive(*b1);
        },
        _ => {},
    }
}

// ---------------------------------------------------------------------------
// evaluate
// ---------------------------------------------------------------------------

/// The evaluated operands of a sum that are not constants, in order, and the
/// sum of those that are.
pub open spec fn eval_add_fold<C: Coefficient>(t: Seq<SExpr<C::V>>) -> (Seq<SExpr<C::V>>, C::V)
    decreases t,
{
    if t.len() == 0 {
        (Seq::empty(), C::zero_v())
    } else {
        let (a, c) = eval_add_fold::<C>(t.subrange(0, t.len() - 1));
        match evaluate_s::<C>(t[t.len() - 1]) {
            SExpr::Const(x) => (a, C::add_v(c, x)),
            y => (a.push(y), c),
        }
    }
}

/// The evaluated operands of a product that are not constants, in order, and
/// the product of those that are.
pub open spec fn eval_mul_fold<C: Coefficient>(t: Seq<SExpr<C::V>>) -> (Seq<SExpr<C::V>>, C::V)
    decreases t,
{
    if t.len() == 0 {
        (Seq::empty(), C::one_v())
    } else {
        let (a, c) = eval_mul_fold::<C>(t.subrange(0, t.len() - 1));
        match evaluate_s::<C>(t[t.len() - 1]) {
            SExpr::Const(x) => (a, C::mul_v(c, x)),
            y => (a.push(y), c),
        }
    }
}

/// The expression with the constant operands of every sum added up and of
/// every product multiplied out (a zero sum or unit product being dropped),
/// with constant bases raised by the coefficient's own power, and flattened.
pub open spec fn evaluate_s<C: Coefficient>(e: SExpr<C::V>) -> SExpr<C::V>
    decreases e,
{
    match e {
        SExpr::Add(t) => {
            let (a, c) = eval_add_fold::<C>(t);
            flatten_s::<C>(
                SExpr::Add(
                    if c == C::zero_v() {
                        a
                    } else {
                        a.push(SExpr::Const(c))
                    },
                ),
            )
        },
        SExpr::Mul(t) => {
            let (a, c) = eval_mul_fold::<C>(t);
            flatten_s::<C>(
                SExpr::Mul(
                    if c == C::one_v() {
                        a
                    } else {
                        a.push(SExpr::Const(c))
                    },
                ),
            )
        },
        SExpr::Pow(a, b) => flatten_s::<C>(
            match evaluate_s::<C>(*a) {
                SExpr::Const(x) => C::pow_v(x, evaluate_s::<C>(*b)),
                y => SExpr::Pow(Box::new(y), Box::new(evaluate_s::<C>(*b))),
            },
        ),
        _ => e,
    }
}

impl<C: Scalar> Expr<C> {
    /// A copy of the expression.
    pub fn duplicate(&self) -> (r: Expr<C>)
        ensures
            r@ == self@,
        decreases self,
    {
        match self {
            Expr::Const(c) => Expr::Const(c.duplicate()),
            Expr::Symbol(s) => Expr::Symbol(share(s)),
            Expr::Add(t) => Expr::Add(duplicate_all(t)),
            Expr::Mul(t) => Expr::Mul(duplicate_all(t)),
            Expr::Pow(a, b) => Expr::Pow(Box::new(a.duplicate()), Box::new(b.duplicate())),
        }
    }

    /// The constant zero.
    pub fn zero() -> (r: Expr<C>)
        ensures
            r@ == SExpr::<C::V>::Const(C::zero_v()),
    {
        Expr::Const(C::zero())
    }

    /// The constant one.
    pub fn one() -> (r: Expr<C>)
        ensures
            r@ == SExpr::<C::V>::Const(C::one_v()),
    {
        Expr::Const(C::one())
    }

    /// Whether the expression is recognisably zero.
    #[verifier::loop_isolation(false)]
    pub fn is_zero(&self) -> (r: bool)
        ensures
            r == is_zero_s::<C>(self@),
        decreases self,
    {
        match self {
            Expr::Const(c) => c.is_zero(),
            Expr::Add(t) => {
                let ghost tv = views(t@);
                for i in 0..t.len()
                    invariant
                        tv == views(t@),
                        all_zero::<C>(tv.subrange(0, i as int)),
                {
                    proof {
                        lemma_prefix_step(tv, i as int);
                    }
                    if !t[i].is_zero() {
                        proof {
                            lemma_all_zero_prefix::<C>(tv, i + 1);
                        }
                        return false;
                    }
                }
                proof {
                    assert(tv.subrange(0, t@.len() as int) =~= tv);
                }
                true
            },
            Expr::Mul(t) => {
                let ghost tv = views(t@);
                for i in 0..t.len()
                    invariant
                        tv == views(t@),
                        !any_zero::<C>(tv.subrange(0, i as int)),
                {
                    proof {
                        lemma_prefix_step(tv, i as int);
                    }
                    if t[i].is_zero() {
                        proof {
                            lemma_any_zero_prefix::<C>(tv, i + 1);
                        }
                        return true;
                    }
                }
                proof {
                    assert(tv.subrange(0, t@.len() as int) =~= tv);
                }
                false
            },
            Expr::Pow(a, _) => a.is_zero(),
            Expr::Symbol(_) => false,
        }
    }

    /// Whether the expression is recognisably one.
    #[verifier::loop_isolation(false)]
    pub fn is_one(&self) -> (r: bool)
        ensures
            r == is_one_s::<C>(self@),
        decreases self,
    {
        match self {
            Expr::Const(c) => c.is_one(),
            Expr::Add(t) => {
                let ghost tv = views(t@);
                let mut a: usize = 0;
                for i in 0..t.len()
                    invariant
                        tv == views(t@),
                        all_one_or_zero::<C>(tv.subrange(0, i as int)),
                        a == count_ones::<C>(tv.subrange(0, i as int)),
                        a <= i,
                {
                    proof {
                        lemma_prefix_step(tv, i as int);
                    }
                    let one = t[i].is_one();
                    if !one && !t[i].is_zero() {
                        proof {
                            lemma_all_one_or_zero_prefix::<C>(tv, i + 1);
                        }
                        return false;
                    }
                    if one {
                        a = a + 1;
                    }
                }
                proof {
                    assert(tv.subrange(0, t@.len() as int) =~= tv);
                }
                a == 1
            },
            Expr::Mul(t) => {
                let ghost tv = views(t@);
                for i in 0..t.len()
                    invariant
                        tv == views(t@),
                        all_one::<C>(tv.subrange(0, i as int)),
                {
                    proof {
                        lemma_prefix_step(tv, i as int);
                    }
                    if !t[i].is_one() {
                        proof {
                            lemma_all_one_prefix::<C>(tv, i + 1);
                        }
                        return false;
                    }
                }
                proof {
                    assert(tv.subrange(0, t@.len() as int) =~= tv);
                }
                true
            },
            Expr::Pow(_, b) => b.is_zero(),
            Expr::Symbol(_) => false,
        }
    }

    /// Equality up to the order of the operands of sums and products.
    #[verifier::loop_isolation(false)]
    pub fn eq(&self, other: &Expr<C>) -> (r: bool)
        ensures
            r == expr_eq(self@, other@),
        decreases self,
    {
        match (self, other) {
            (Expr::Const(a), Expr::Const(b)) => a.same(b),
            (Expr::Symbol(a), Expr::Symbol(b)) => a.same(b),
            (Expr::Add(a), Expr::Add(b)) => {
                if a.len() != b.len() {
                    assert(views(a@).len() != views(b@).len());
                    return false;
                }
                Self::operands_match(a, b)
            },
            (Expr::Mul(a), Expr::Mul(b)) => {
                if a.len() != b.len() {
                    assert(views(a@).len() != views(b@).len());
                    return false;
                }
                Self::operands_match(a, b)
            },
            (Expr::Pow(a1, b1), Expr::Pow(a2, b2)) => a1.eq(a2) && b1.eq(b2),
            _ => false,
        }
    }

    /// Whether each operand of `b` in turn finds a distinct equal operand of `a`.
    #[verifier::loop_isolation(false)]
    fn operands_match(a: &Vec<Expr<C>>, b: &Vec<Expr<C>>) -> (r: bool)
        ensures
            r == match_operands(views(a@), unused(a@.len()), views(b@), 0),
        decreases a,
    {
        let ghost av = views(a@);
        let ghost bv = views(b@);
        let mut used: Vec<bool> = Vec::new();
        for i in 0..a.len()
            invariant
                used@.len() == i,
                forall|j: int| 0 <= j < i ==> !(#[trigger] used@[j]),
        {
            used.push(false);
        }
        assert(used@ =~= unused(a@.len()));
        let mut k: usize = 0;
        while k < b.len()
            invariant
                av == views(a@),
                bv == views(b@),
                used@.len() == a@.len(),
                k <= b@.len(),
                match_operands(av, unused(a@.len()), bv, 0) == match_operands(av, used@, bv, k as int),
            decreases b@.len() - k,
        {
            let ghost budget = bv.len() - k;
            let mut j: usize = 0;
            let mut found = false;
            while j < a.len()
                invariant
                    av == views(a@),
                    bv == views(b@),
                    used@.len() == a@.len(),
                    k < b@.len(),
                    j <= a@.len(),
                    !found,
                    first_free_match(av, used@, bv[k as int], 0, budget) == first_free_match(
                        av,
                        used@,
                        bv[k as int],
                        j as int,
                        budget,
                    ),
                decreases a@.len() - j,
            {
                if !used[j] && a[j].eq(&b[k]) {
                    found = true;
                    break;
                }
                j = j + 1;
            }
            if !found {
                return false;
            }
            used.set(j, true);
            k = k + 1;
        }
        true
    }

    /// Merges nested sums and products into their parents; a sum or product
    /// of no operand becomes zero or one, and one of a single operand
    /// becomes that operand.
    #[verifier::loop_isolation(false)]
    pub fn flatten(&self) -> (r: Expr<C>)
        ensures
            r@ == flatten_s::<C>(self@),
        decreases self,
    {
        match self {
            Expr::Add(t) => {
                let mut a: Vec<Expr<C>> = Vec::new();
                let ghost tv = views(t@);
                for i in 0..t.len()
                    invariant
                        tv == views(t@),
                        views(a@) == flat_add_parts::<C>(tv.subrange(0, i as int)),
                {
                    let f = t[i].flatten();
                    proof {
                        assert(tv.subrange(0, i + 1).subrange(0, i as int) =~= tv.subrange(0, i as int));
                        assert(tv.subrange(0, i + 1)[i as int] == t@[i as int]@);
                    }
                    match f {
                        Expr::Add(mut u) => {
                            proof {
                                lemma_views_add(a@, u@);
                            }
                            a.append(&mut u);
                        },
                        other => {
                            proof {
                                lemma_views_push(a@, other);
                                assert(add_operands(other@) =~= seq![other@]);
                            }
                            a.push(other);
                        },
                    }
                }
                proof {
                    assert(tv.subrange(0, t@.len() as int) =~= tv);
                }
                make_add_exec(a)
            },
            Expr::Mul(t) => {
                let mut a: Vec<Expr<C>> = Vec::new();
                let ghost tv = views(t@);
                for i in 0..t.len()
                    invariant
                        tv == views(t@),
                        views(a@) == flat_mul_parts::<C>(tv.subrange(0, i as int)),
                {
                    let f = t[i].flatten();
                    proof {
                        assert(tv.subrange(0, i + 1).subrange(0, i as int) =~= tv.subrange(0, i as int));
                        assert(tv.subrange(0, i + 1)[i as int] == t@[i as int]@);
                    }
                    match f {
                        Expr::Mul(mut u) => {
                            proof {
                                lemma_views_add(a@, u@);
                            }
                            a.append(&mut u);
                        },
                        other => {
                            proof {
                                lemma_views_push(a@, other);
                                assert(mul_operands(other@) =~= seq![other@]);
                            }
                            a.push(other);
                        },
                    }
                }
                proof {
                    assert(tv.subrange(0, t@.len() as int) =~= tv);
                }
                make_mul_exec(a)
            },
            Expr::Pow(a, b) => Expr::Pow(Box::new(a.flatten()), Box::new(b.flatten())),
            _ => self.duplicate(),
        }
    }
}

impl<C: Coefficient> Expr<C> {
    /// Adds up the constant operands of sums and multiplies out those of
    /// products, raises constant bases, and flattens the result.
    #[verifier::loop_isolation(false)]
    pub fn evaluate(&self) -> (r: Expr<C>)
        ensures
            r@ == evaluate_s::<C>(self@),
        decreases self,
    {
        match self {
            Expr::Add(t) => {
                let ghost tv = views(t@);
                let mut a: Vec<Expr<C>> = Vec::new();
                let mut constant = C::zero();
                for i in 0..t.len()
                    invariant
                        tv == views(t@),
                        (views(a@), constant@) == eval_add_fold::<C>(tv.subrange(0, i as int)),
                {
                    proof {
                        lemma_prefix_step(tv, i as int);
                    }
                    match t[i].evaluate() {
                        Expr::Const(c) => {
                            constant = constant.plus(&c);
                        },
                        other => {
                            proof {
                                lemma_views_push(a@, other);
                            }
                            a.push(other);
                        },
                    }
                }
                proof {
                    assert(tv.subrange(0, t@.len() as int) =~= tv);
                }
                if !constant.is_zero() {
                    let k = Expr::Const(constant);
                    proof {
                        lemma_views_push(a@, k);
                    }
                    a.push(k);
                }
                Expr::Add(a).flatten()
            },
            Expr::Mul(t) => {
                let ghost tv = views(t@);
                let mut a: Vec<Expr<C>> = Vec::new();
                let mut constant = C::one();
                for i in 0..t.len()
                    invariant
                        tv == views(t@),
                        (views(a@), constant@) == eval_mul_fold::<C>(tv.subrange(0, i as int)),
                {
                    proof {
                        lemma_prefix_step(tv, i as int);
                    }
                    match t[i].evaluate() {
                        Expr::Const(c) => {
                            constant = constant.times(&c);
                        },
                        other => {
                            proof {
                                lemma_views_push(a@, other);
                            }
                            a.push(other);
                        },
                    }
                }
                proof {
                    assert(tv.subrange(0, t@.len() as int) =~= tv);
                }
                if !constant.is_one() {
                    let k = Expr::Const(constant);
                    proof {
                        lemma_views_push(a@, k);
                    }
                    a.push(k);
                }
                Expr::Mul(a).flatten()
            },
            Expr::Pow(a, b) => {
                let base = a.evaluate();
                let exp = b.evaluate();
                let p = match base {
                    Expr::Const(c) => c.pow_expr(exp),
                    other => Expr::Pow(Box::new(other), Box::new(exp)),
                };
                p.flatten()
            },
            _ => self.duplicate(),
        }
    }
}

/// Copies of every expression of `t`.
fn duplicate_all<C: Scalar>(t: &Vec<Expr<C>>) -> (r: Vec<Expr<C>>)
    ensures
        views(r@) == views(t@),
    decreases t,
{
    let mut v: Vec<Expr<C>> = Vec::new();
    for i in 0..t.len()
        invariant
            v.len() == i,
            forall|j: int| 0 <= j < i ==> (#[trigger] v@[j])@ == t@[j]@,
    {
        v.push(t[i].duplicate());
    }
    assert(views(v@) =~= views(t@));
    v
}

/// The sum of `a`, as `make_add` says.
pub fn make_add_exec<C: Scalar>(a: Vec<Expr<C>>) -> (r: Expr<C>)
    ensures
        r@ == make_add::<C>(views(a@)),
{
    let mut a = a;
    if a.len() == 0 {
        Expr::zero()
    } else if a.len() == 1 {
        a.remove(0)
    } else {
        Expr::Add(a)
    }
}

/// The product of `a`, as `make_mul` says.
pub fn make_mul_exec<C: Scalar>(a: Vec<Expr<C>>) -> (r: Expr<C>)
    ensures
        r@ == make_mul::<C>(views(a@)),
{
    let mut a = a;
    if a.len() == 0 {
        Expr::one()
    } else if a.len() == 1 {
        a.remove(0)
    } else {
        Expr::Mul(a)
    }
}

} // verus!
