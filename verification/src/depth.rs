use crate::coef::{Coefficient, Scalar};
use crate::expr::{eval_add_fold, eval_mul_fold, evaluate_s, add_operands, flat_add_parts, flat_mul_parts, flatten_s, mul_operands, SExpr};
use vstd::prelude::*;

verus! {

/// How deeply sums nest in an expression: the most sums met on a path from
/// the root.
pub open spec fn add_depth<V>(e: SExpr<V>) -> nat
    decreases e,
{
    match e {
        SExpr::Add(t) => 1 + max_add_depth(t),
        SExpr::Mul(t) => max_add_depth(t),
        SExpr::Pow(a, b) => {
            let x = add_depth(*a);
            let y = add_depth(*b);
            if x < y {
                y
            } else {
                x
            }
        },
        _ => 0,
    }
}

/// The largest sum depth among the expressions of `t` (zero for none).
pub open spec fn max_add_depth<V>(t: Seq<SExpr<V>>) -> nat
    decreases t,
{
    if t.len() == 0 {
        0
    } else {
        let m = max_add_depth(t.subrange(0, t.len() - 1));
        let d = add_depth(t[t.len() - 1]);
        if m < d {
            d
        } else {
            m
        }
    }
}

pub proof fn lemma_max_depth_elem<V>(t: Seq<SExpr<V>>, i: int)
    requires
        0 <= i < t.len(),
    ensures
        add_depth(t[i]) <= max_add_depth(t),
    decreases t.len(),
{
    if i < t.len() - 1 {
        let init = t.subrange(0, t.len() - 1);
        lemma_max_depth_elem(init, i);
        assert(init[i] == t[i]);
    }
}

pub proof fn lemma_max_depth_bound<V>(t: Seq<SExpr<V>>, k: nat)
    requires
        forall|i: int| 0 <= i < t.len() ==> add_depth(#[trigger] t[i]) <= k,
    ensures
        max_add_depth(t) <= k,
    decreases t.len(),
{
    if t.len() > 0 {
        let init = t.subrange(0, t.len() - 1);
        assert forall|i: int| 0 <= i < init.len() implies add_depth(#[trigger] init[i]) <= k by {
            assert(init[i] == t[i]);
        }
        lemma_max_depth_bound(init, k);
    }
}

proof fn lemma_flat_parts_depth<C: Scalar>(t: Seq<SExpr<C::V>>)
    requires
        forall|i: int| 0 <= i < t.len() ==> add_depth(flatten_s::<C>(#[trigger] t[i])) <= add_depth(t[i]),
    ensures
        forall|k: int|
            0 <= k < flat_add_parts::<C>(t).len() ==> add_depth(#[trigger] flat_add_parts::<C>(t)[k])
                <= max_add_depth(t),
        forall|k: int|
            0 <= k < flat_mul_parts::<C>(t).len() ==> add_depth(#[trigger] flat_mul_parts::<C>(t)[k])
                <= max_add_depth(t),
    decreases t.len(),
{
    if t.len() > 0 {
        let n = t.len() - 1;
        let init = t.subrange(0, n);
        assert forall|i: int| 0 <= i < init.len() implies add_depth(flatten_s::<C>(#[trigger] init[i]))
            <= add_depth(init[i]) by {
            assert(init[i] == t[i]);
        }
        lemma_flat_parts_depth::<C>(init);
        let m = max_add_depth(t);
        let f = flatten_s::<C>(t[n]);
        lemma_max_depth_elem(t, n);
        assert(add_depth(f) <= m);
        let pa = flat_add_parts::<C>(init);
        let qa = add_operands(f);
        assert forall|k: int| 0 <= k < qa.len() implies add_depth(#[trigger] qa[k]) <= m by {
            match f {
                SExpr::Add(u) => {
                    lemma_max_depth_elem(u, k);
                },
                _ => {},
            }
        }
        assert forall|k: int| 0 <= k < (pa + qa).len() implies add_depth(#[trigger] (pa + qa)[k]) <= m by {
            if k < pa.len() {
                assert((pa + qa)[k] == pa[k]);
            } else {
                assert((pa + qa)[k] == qa[k - pa.len()]);
            }
        }
        let pm = flat_mul_parts::<C>(init);
        let qm = mul_operands(f);
        assert forall|k: int| 0 <= k < qm.len() implies add_depth(#[trigger] qm[k]) <= m by {
            match f {
                SExpr::Mul(u) => {
                    lemma_max_depth_elem(u, k);
                },
                _ => {},
            }
        }
        assert forall|k: int| 0 <= k < (pm + qm).len() implies add_depth(#[trigger] (pm + qm)[k]) <= m by {
            if k < pm.len() {
                assert((pm + qm)[k] == pm[k]);
            } else {
                assert((pm + qm)[k] == qm[k - pm.len()]);
            }
        }
    }
}

/// Flattening never deepens the nesting of sums.
pub proof fn lemma_flatten_depth<C: Scalar>(e: SExpr<C::V>)
    ensures
        add_depth(flatten_s::<C>(e)) <= add_depth(e),
    decreases e,
{
    match e {
        SExpr::Add(t) => {
            assert forall|i: int| 0 <= i < t.len() implies add_depth(flatten_s::<C>(#[trigger] t[i]))
                <= add_depth(t[i]) by {
                lemma_flatten_depth::<C>(t[i]);
            }
            lemma_flat_parts_depth::<C>(t);
            let a = flat_add_parts::<C>(t);
            lemma_max_depth_bound(a, max_add_depth(t));
        },
        SExpr::Mul(t) => {
            assert forall|i: int| 0 <= i < t.len() implies add_depth(flatten_s::<C>(#[trigger] t[i]))
                <= add_depth(t[i]) by {
                lemma_flatten_depth::<C>(t[i]);
            }
            lemma_flat_parts_depth::<C>(t);
            let a = flat_mul_parts::<C>(t);
            lemma_max_depth_bound(a, max_add_depth(t));
        },
        SExpr::Pow(a, b) => {
            lemma_flatten_depth::<C>(*a);
            lemma_flatten_depth::<C>(*b);
        },
        _ => {},
    }
}

proof fn lemma_eval_fold_depth<C: Coefficient>(t: Seq<SExpr<C::V>>)
    requires
        forall|i: int| 0 <= i < t.len() ==> add_depth(evaluate_s::<C>(#[trigger] t[i])) <= add_depth(t[i]),
    ensures
        forall|k: int|
            0 <= k < eval_add_fold::<C>(t).0.len() ==> add_depth(#[trigger] eval_add_fold::<C>(t).0[k])
                <= max_add_depth(t),
        forall|k: int|
            0 <= k < eval_mul_fold::<C>(t).0.len() ==> add_depth(#[trigger] eval_mul_fold::<C>(t).0[k])
                <= max_add_depth(t),
    decreases t.len(),
{
    if t.len() > 0 {
        let n = t.len() - 1;
        let init = t.subrange(0, n);
        assert forall|i: int| 0 <= i < init.len() implies add_depth(evaluate_s::<C>(#[trigger] init[i]))
            <= add_depth(init[i]) by {
            assert(init[i] == t[i]);
        }
        lemma_eval_fold_depth::<C>(init);
        lemma_max_depth_elem(t, n);
        let m = max_add_depth(t);
        let a = eval_add_fold::<C>(init).0;
        let b = eval_mul_fold::<C>(init).0;
        let y = evaluate_s::<C>(t[n]);
        assert forall|k: int| 0 <= k < a.push(y).len() implies add_depth(#[trigger] a.push(y)[k]) <= m by {
            if k < a.len() {
                assert(a.push(y)[k] == a[k]);
            }
        }
        assert forall|k: int| 0 <= k < b.push(y).len() implies add_depth(#[trigger] b.push(y)[k]) <= m by {
            if k < b.len() {
                assert(b.push(y)[k] == b[k]);
            }
        }
    }
}

/// Evaluating never deepens the nesting of sums.
pub proof fn lemma_evaluate_depth<C: Coefficient>(e: SExpr<C::V>)
    ensures
        add_depth(evaluate_s::<C>(e)) <= add_depth(e),
    decreases e,
{
    match e {
        SExpr::Add(t) => {
            assert forall|i: int| 0 <= i < t.len() implies add_depth(evaluate_s::<C>(#[trigger] t[i]))
                <= add_depth(t[i]) by {
                lemma_evaluate_depth::<C>(t[i]);
            }
            lemma_eval_fold_depth::<C>(t);
            let (a, c) = eval_add_fold::<C>(t);
            let l = if c == C::zero_v() {
                a
            } else {
                a.push(SExpr::Const(c))
            };
            assert forall|k: int| 0 <= k < l.len() implies add_depth(#[trigger] l[k]) <= max_add_depth(t) by {
                if k < a.len() {
                    assert(l[k] == a[k]);
                }
            }
            lemma_max_depth_bound(l, max_add_depth(t));
            lemma_flatten_depth::<C>(SExpr::Add(l));
        },
        SExpr::Mul(t) => {
            assert forall|i: int| 0 <= i < t.len() implies add_depth(evaluate_s::<C>(#[trigger] t[i]))
                <= add_depth(t[i]) by {
                lemma_evaluate_depth::<C>(t[i]);
            }
            lemma_eval_fold_depth::<C>(t);
            let (a, c) = eval_mul_fold::<C>(t);
            let l = if c == C::one_v() {
                a
            } else {
                a.push(SExpr::Const(c))
            };
            assert forall|k: int| 0 <= k < l.len() implies add_depth(#[trigger] l[k]) <= max_add_depth(t) by {
                if k < a.len() {
                    assert(l[k] == a[k]);
                }
            }
            lemma_max_depth_bound(l, max_add_depth(t));
            lemma_flatten_depth::<C>(SExpr::Mul(l));
        },
        SExpr::Pow(a, b) => {
            lemma_evaluate_depth::<C>(*a);
            lemma_evaluate_depth::<C>(*b);
            let x = evaluate_s::<C>(*a);
            let y = evaluate_s::<C>(*b);
            match x {
                SExpr::Const(v) => {
                    C::lemma_pow_shape(v, y);
                    lemma_flatten_depth::<C>(C::pow_v(v, y));
                },
                _ => {
                    lemma_flatten_depth::<C>(SExpr::Pow(Box::new(x), Box::new(y)));
                },
            }
        },
        _ => {},
    }
}

} // verus!
