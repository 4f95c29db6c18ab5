use crate::coef::{Coefficient, Scalar};
use crate::depth::{
    add_depth, lemma_evaluate_depth, lemma_flatten_depth, lemma_max_depth_bound, lemma_max_depth_elem,
    max_add_depth,
};
use crate::expr::{
    evaluate_s, expr_eq, expr_view, flatten_s, is_one_s, is_zero_s, lemma_prefix_step, lemma_views_push, views, Expr,
    SExpr,
};
use vstd::prelude::*;

verus! {

broadcast use vstd::std_specs::vec::group_vec_axioms;

/// The views of a sequence of coefficients.
pub open spec fn cviews<C: View>(s: Seq<C>) -> Seq<C::V> {
    Seq::new(s.len(), |i: int| s[i]@)
}

/// The first index, from `j` on, of an expression of `terms` equal to `x`.
pub open spec fn position_from<V>(terms: Seq<SExpr<V>>, x: SExpr<V>, j: int) -> Option<int>
    decreases terms.len() - j,
{
    if j < 0 || j >= terms.len() {
        None
    } else if expr_eq(terms[j], x) {
        Some(j)
    } else {
        position_from(terms, x, j + 1)
    }
}

/// The first index of an expression of `terms` equal to `x`.
pub open spec fn position_of<V>(terms: Seq<SExpr<V>>, x: SExpr<V>) -> Option<int> {
    position_from(terms, x, 0)
}

/// The non-constant operands of a product, in order, and the product of its
/// constant operands.
pub open spec fn split_consts<C: Scalar>(u: Seq<SExpr<C::V>>) -> (Seq<SExpr<C::V>>, C::V)
    decreases u.len(),
{
    if u.len() == 0 {
        (Seq::empty(), C::one_v())
    } else {
        let (a, k) = split_consts::<C>(u.subrange(0, u.len() - 1));
        match u[u.len() - 1] {
            SExpr::Const(c) => (a, C::mul_v(k, c)),
            x => (a.push(x), k),
        }
    }
}

/// A collected operand of a sum as a term and its coefficient: a product
/// splits into its non-constant part and its constant factor; anything else
/// is its own term, with coefficient one.
pub open spec fn term_and_coef<C: Scalar>(c: SExpr<C::V>) -> (SExpr<C::V>, C::V) {
    match c {
        SExpr::Mul(u) => {
            let (nc, k) = split_consts::<C>(u);
            (flatten_s::<C>(SExpr::Mul(nc)), k)
        },
        _ => (c, C::one_v()),
    }
}

/// A collected operand of a product as a base and its exponent: a power with
/// a constant exponent splits into both; anything else is its own base, with
/// exponent one.
pub open spec fn base_and_exp<C: Scalar>(c: SExpr<C::V>) -> (SExpr<C::V>, C::V) {
    match c {
        SExpr::Pow(a, b) => match *b {
            SExpr::Const(e) => (*a, e),
            _ => (c, C::one_v()),
        },
        _ => (c, C::one_v()),
    }
}

/// The distinct terms of the collected operands of a sum, in order of first
/// appearance, with the sums of their coefficients.
pub open spec fn add_groups<C: Coefficient>(t: Seq<SExpr<C::V>>, f: nat) -> (Seq<SExpr<C::V>>, Seq<C::V>)
    decreases f, 1nat, t,
{
    if t.len() == 0 {
        (Seq::empty(), Seq::empty())
    } else {
        let (ts, cs) = add_groups::<C>(t.subrange(0, t.len() - 1), f);
        let (term, coef) = term_and_coef::<C>(collect_s::<C>(t[t.len() - 1], f));
        match position_of(ts, term) {
            Some(k) => (ts, cs.update(k, C::add_v(cs[k], coef))),
            None => (ts.push(term), cs.push(coef)),
        }
    }
}

/// The operands of a collected sum: each term times its coefficient, with
/// zero terms and zero coefficients dropped, a unit coefficient leaving the
/// term alone and a unit term leaving the coefficient alone.
pub open spec fn add_emit<C: Coefficient>(ts: Seq<SExpr<C::V>>, cs: Seq<C::V>, f: nat) -> Seq<SExpr<C::V>>
    decreases f, 0nat, ts,
{
    if ts.len() == 0 {
        Seq::empty()
    } else {
        let n = ts.len() - 1;
        let a = add_emit::<C>(ts.subrange(0, n), cs.subrange(0, n), f);
        let term = ts[n];
        let coef = cs[n];
        if is_zero_s::<C>(term) || coef == C::zero_v() {
            a
        } else if coef == C::one_v() {
            a.push(term)
        } else if is_one_s::<C>(term) {
            a.push(SExpr::Const(coef))
        } else if f == 0 {
            a.push(SExpr::Mul(seq![term, SExpr::Const(coef)]))
        } else {
            a.push(simplify_s::<C>(SExpr::Mul(seq![term, SExpr::Const(coef)]), (f - 1) as nat))
        }
    }
}

/// The distinct bases of the collected operands of a product, in order of
/// first appearance, with the sums of their exponents, and the product of
/// the constant operands.
pub open spec fn mul_groups<C: Coefficient>(t: Seq<SExpr<C::V>>, f: nat) -> (
    Seq<SExpr<C::V>>,
    Seq<C::V>,
    C::V,
)
    decreases f, 1nat, t,
{
    if t.len() == 0 {
        (Seq::empty(), Seq::empty(), C::one_v())
    } else {
        let (bs, es, k) = mul_groups::<C>(t.subrange(0, t.len() - 1), f);
        let c = collect_s::<C>(t[t.len() - 1], f);
        match c {
            SExpr::Const(v) => (bs, es, C::mul_v(k, v)),
            _ => {
                let (base, exp) = base_and_exp::<C>(c);
                match position_of(bs, base) {
                    Some(j) => (bs, es.update(j, C::add_v(es[j], exp)), k),
                    None => (bs.push(base), es.push(exp), k),
                }
            },
        }
    }
}

/// The powers of a collected product: unit bases and zero exponents dropped,
/// a unit exponent leaving the base alone.
pub open spec fn mul_emit_pairs<C: Scalar>(bs: Seq<SExpr<C::V>>, es: Seq<C::V>) -> Seq<SExpr<C::V>>
    decreases bs.len(),
{
    if bs.len() == 0 {
        Seq::empty()
    } else {
        let n = bs.len() - 1;
        let a = mul_emit_pairs::<C>(bs.subrange(0, n), es.subrange(0, n));
        let base = bs[n];
        let exp = es[n];
        if is_one_s::<C>(base) || exp == C::zero_v() {
            a
        } else if exp == C::one_v() {
            a.push(base)
        } else {
            a.push(SExpr::Pow(Box::new(base), Box::new(SExpr::Const(exp))))
        }
    }
}

/// The operands of a collected product: the constant factor first, unless
/// it is one, then the powers.
pub open spec fn mul_emit<C: Scalar>(bs: Seq<SExpr<C::V>>, es: Seq<C::V>, k: C::V) -> Seq<SExpr<C::V>> {
    if k == C::one_v() {
        mul_emit_pairs::<C>(bs, es)
    } else {
        seq![SExpr::Const(k)] + mul_emit_pairs::<C>(bs, es)
    }
}

/// Like terms of every sum gathered with their coefficients added, like
/// bases of every product gathered with their exponents added, and the
/// result flattened. A term is multiplied back by its coefficient through
/// `simplify`; `f` bounds how deeply that recursion goes, and is never
/// exhausted when it is at least the expression's `add_depth`.
pub open spec fn collect_s<C: Coefficient>(e: SExpr<C::V>, f: nat) -> SExpr<C::V>
    decreases f, 1nat, e,
{
    match e {
        SExpr::Add(t) => {
            let (ts, cs) = add_groups::<C>(t, f);
            flatten_s::<C>(SExpr::Add(add_emit::<C>(ts, cs, f)))
        },
        SExpr::Mul(t) => {
            let (bs, es, k) = mul_groups::<C>(t, f);
            flatten_s::<C>(SExpr::Mul(mul_emit::<C>(bs, es, k)))
        },
        SExpr::Pow(a, b) => SExpr::Pow(Box::new(collect_s::<C>(*a, f)), Box::new(collect_s::<C>(*b, f))),
        _ => e,
    }
}

/// Flatten, evaluate and collect; a result that is recognisably zero or one
/// becomes that constant, and a power with a unit exponent becomes its base.
pub open spec fn simplify_s<C: Coefficient>(e: SExpr<C::V>, f: nat) -> SExpr<C::V>
    decreases f, 2nat, e,
{
    let c = collect_s::<C>(evaluate_s::<C>(flatten_s::<C>(e)), f);
    if is_zero_s::<C>(c) {
        SExpr::Const(C::zero_v())
    } else if is_one_s::<C>(c) {
        SExpr::Const(C::one_v())
    } else {
        match c {
            SExpr::Pow(a, b) => if is_one_s::<C>(*b) {
                *a
            } else {
                c
            },
            _ => c,
        }
    }
}

/// The values added up from the left; zero for none.
pub open spec fn left_sum<C: Scalar>(es: Seq<C::V>) -> C::V
    decreases es.len(),
{
    if es.len() == 0 {
        C::zero_v()
    } else if es.len() == 1 {
        es[0]
    } else {
        C::add_v(left_sum::<C>(es.subrange(0, es.len() - 1)), es[es.len() - 1])
    }
}

/// Like powers gather: where every operand of a product collects to one
/// base `b`, raised to a constant exponent or (exponent one) alone, the
/// product's groups are that single base with the sum of all the
/// exponents, and no constant factor.
pub proof fn law_mul_groups_like_powers<C: Coefficient>(
    t: Seq<SExpr<C::V>>,
    f: nat,
    b: SExpr<C::V>,
    es: Seq<C::V>,
)
    requires
        t.len() > 0,
        es.len() == t.len(),
        forall|i: int|
            0 <= i < t.len() ==> !(collect_s::<C>(#[trigger] t[i], f) is Const) && base_and_exp::<C>(
                collect_s::<C>(t[i], f),
            ) == (b, es[i]),
    ensures
        mul_groups::<C>(t, f) == (seq![b], seq![left_sum::<C>(es)], C::one_v()),
    decreases t.len(),
{
    crate::expr::law_expr_eq_reflexive(b);
    let n = t.len() - 1;
    let t0 = t.subrange(0, n);
    let c = collect_s::<C>(t[n], f);
    assert(!(c is Const) && base_and_exp::<C>(c) == (b, es[n]));
    if t.len() == 1 {
        assert(t0 =~= Seq::<SExpr<C::V>>::empty());
        assert(mul_groups::<C>(t0, f) == (Seq::<SExpr<C::V>>::empty(), Seq::<C::V>::empty(), C::one_v()));
        assert(position_of(Seq::<SExpr<C::V>>::empty(), b) is None);
        assert(Seq::<SExpr<C::V>>::empty().push(b) =~= seq![b]);
        assert(Seq::<C::V>::empty().push(es[n]) =~= seq![es[n]]);
    } else {
        let es0 = es.subrange(0, n);
        assert forall|i: int| 0 <= i < t0.len() implies !(collect_s::<C>(#[trigger] t0[i], f) is Const)
            && base_and_exp::<C>(collect_s::<C>(t0[i], f)) == (b, es0[i]) by {
            assert(t0[i] == t[i]);
            assert(es0[i] == es[i]);
        }
        law_mul_groups_like_powers::<C>(t0, f, b, es0);
        assert(position_from(seq![b], b, 0) == Some(0int));
        assert(seq![left_sum::<C>(es0)].update(0, C::add_v(left_sum::<C>(es0), es[n])) =~= seq![left_sum::<C>(es)]);
    }
}

/// Like terms gather: where every operand of a sum collects to one term
/// with some coefficient, the sum's groups are that single term with the
/// sum of all the coefficients.
pub proof fn law_add_groups_like_terms<C: Coefficient>(
    t: Seq<SExpr<C::V>>,
    f: nat,
    term: SExpr<C::V>,
    cs: Seq<C::V>,
)
    requires
        t.len() > 0,
        cs.len() == t.len(),
        forall|i: int| 0 <= i < t.len() ==> term_and_coef::<C>(collect_s::<C>(#[trigger] t[i], f)) == (term, cs[i]),
    ensures
        add_groups::<C>(t, f) == (seq![term], seq![left_sum::<C>(cs)]),
    decreases t.len(),
{
    crate::expr::law_expr_eq_reflexive(term);
    let n = t.len() - 1;
    let t0 = t.subrange(0, n);
    assert(term_and_coef::<C>(collect_s::<C>(t[n], f)) == (term, cs[n]));
    if t.len() == 1 {
        assert(t0 =~= Seq::<SExpr<C::V>>::empty());
        assert(add_groups::<C>(t0, f) == (Seq::<SExpr<C::V>>::empty(), Seq::<C::V>::empty()));
        assert(position_of(Seq::<SExpr<C::V>>::empty(), term) is None);
        assert(Seq::<SExpr<C::V>>::empty().push(term) =~= seq![term]);
        assert(Seq::<C::V>::empty().push(cs[n]) =~= seq![cs[n]]);
    } else {
        let cs0 = cs.subrange(0, n);
        assert forall|i: int| 0 <= i < t0.len() implies term_and_coef::<C>(collect_s::<C>(#[trigger] t0[i], f))
            == (term, cs0[i]) by {
            assert(t0[i] == t[i]);
            assert(cs0[i] == cs[i]);
        }
        law_add_groups_like_terms::<C>(t0, f, term, cs0);
        assert(position_from(seq![term], term, 0) == Some(0int));
        assert(seq![left_sum::<C>(cs0)].update(0, C::add_v(left_sum::<C>(cs0), cs[n])) =~= seq![left_sum::<C>(cs)]);
    }
}

/// The constants multiplied together from the left; one for none.
pub open spec fn left_product<C: Scalar>(cs: Seq<C::V>) -> C::V
    decreases cs.len(),
{
    if cs.len() == 0 {
        C::one_v()
    } else {
        C::mul_v(left_product::<C>(cs.subrange(0, cs.len() - 1)), cs[cs.len() - 1])
    }
}

/// Constants fold: where every operand of a product collects to a
/// constant, the product has no bases and the product of the constants as
/// its constant factor.
pub proof fn law_mul_groups_constants<C: Coefficient>(t: Seq<SExpr<C::V>>, f: nat, cs: Seq<C::V>)
    requires
        cs.len() == t.len(),
        forall|i: int| 0 <= i < t.len() ==> collect_s::<C>(#[trigger] t[i], f) == SExpr::<C::V>::Const(cs[i]),
    ensures
        mul_groups::<C>(t, f) == (Seq::<SExpr<C::V>>::empty(), Seq::<C::V>::empty(), left_product::<C>(cs)),
    decreases t.len(),
{
    if t.len() > 0 {
        let n = t.len() - 1;
        let t0 = t.subrange(0, n);
        let cs0 = cs.subrange(0, n);
        assert forall|i: int| 0 <= i < t0.len() implies collect_s::<C>(#[trigger] t0[i], f) == SExpr::<C::V>::Const(
            cs0[i],
        ) by {
            assert(t0[i] == t[i]);
            assert(cs0[i] == cs[i]);
        }
        law_mul_groups_constants::<C>(t0, f, cs0);
        assert(collect_s::<C>(t[n], f) == SExpr::<C::V>::Const(cs[n]));
    }
}

proof fn lemma_add_groups_len<C: Coefficient>(t: Seq<SExpr<C::V>>, f: nat)
    ensures
        add_groups::<C>(t, f).0.len() == add_groups::<C>(t, f).1.len(),
    decreases t.len(),
{
    if t.len() > 0 {
        lemma_add_groups_len::<C>(t.subrange(0, t.len() - 1), f);
        let ts = add_groups::<C>(t.subrange(0, t.len() - 1), f).0;
        let term = term_and_coef::<C>(collect_s::<C>(t[t.len() - 1], f)).0;
        lemma_position_from_range(ts, term, 0);
    }
}

proof fn lemma_mul_groups_len<C: Coefficient>(t: Seq<SExpr<C::V>>, f: nat)
    ensures
        mul_groups::<C>(t, f).0.len() == mul_groups::<C>(t, f).1.len(),
    decreases t.len(),
{
    if t.len() > 0 {
        lemma_mul_groups_len::<C>(t.subrange(0, t.len() - 1), f);
        let bs = mul_groups::<C>(t.subrange(0, t.len() - 1), f).0;
        let base = base_and_exp::<C>(collect_s::<C>(t[t.len() - 1], f)).0;
        lemma_position_from_range(bs, base, 0);
    }
}

proof fn lemma_position_from_range<V>(terms: Seq<SExpr<V>>, x: SExpr<V>, j: int)
    ensures
        position_from(terms, x, j) matches Some(k) ==> j <= k < terms.len(),
    decreases terms.len() - j,
{
    if 0 <= j < terms.len() && !expr_eq(terms[j], x) {
        lemma_position_from_range(terms, x, j + 1);
    }
}

proof fn lemma_split_consts_depth<C: Scalar>(u: Seq<SExpr<C::V>>)
    ensures
        forall|k: int|
            0 <= k < split_consts::<C>(u).0.len() ==> add_depth(#[trigger] split_consts::<C>(u).0[k])
                <= max_add_depth(u),
    decreases u.len(),
{
    if u.len() > 0 {
        let n = u.len() - 1;
        let init = u.subrange(0, n);
        lemma_split_consts_depth::<C>(init);
        lemma_max_depth_elem(u, n);
        let a = split_consts::<C>(init).0;
        assert forall|k: int| 0 <= k < a.len() implies add_depth(#[trigger] a[k]) <= max_add_depth(u) by {
            assert(max_add_depth(init) <= max_add_depth(u));
        }
        assert forall|k: int| 0 <= k < a.push(u[n]).len() implies add_depth(#[trigger] a.push(u[n])[k])
            <= max_add_depth(u) by {
            if k < a.len() {
                assert(a.push(u[n])[k] == a[k]);
            }
        }
    }
}

/// The first position in `terms` of an expression equal to `x`.
fn position<C: Scalar>(terms: &Vec<Expr<C>>, x: &Expr<C>) -> (r: Option<usize>)
    ensures
        r matches Some(k) ==> position_of(views(terms@), x@) == Some(k as int),
        r is None ==> position_of(views(terms@), x@) is None,
{
    let ghost tv = views(terms@);
    let mut j: usize = 0;
    while j < terms.len()
        invariant
            tv == views(terms@),
            j <= terms@.len(),
            position_of(tv, x@) == position_from(tv, x@, j as int),
        decreases terms@.len() - j,
    {
        if terms[j].eq(x) {
            return Some(j);
        }
        j = j + 1;
    }
    None
}

/// A collected operand of a sum split into its term and coefficient.
#[verifier::loop_isolation(false)]
fn split_term<C: Scalar>(c: Expr<C>) -> (r: (Expr<C>, C))
    ensures
        (r.0@, r.1@) == term_and_coef::<C>(c@),
        add_depth(r.0@) <= add_depth(c@),
{
    match c {
        Expr::Mul(u) => {
            let ghost uv = views(u@);
            let mut nc: Vec<Expr<C>> = Vec::new();
            let mut k = C::one();
            for i in 0..u.len()
                invariant
                    uv == views(u@),
                    (views(nc@), k@) == split_consts::<C>(uv.subrange(0, i as int)),
            {
                proof {
                    lemma_prefix_step(uv, i as int);
                }
                match &u[i] {
                    Expr::Const(v) => {
                        k = k.times(v);
                    },
                    other => {
                        let d = other.duplicate();
                        proof {
                            lemma_views_push(nc@, d);
                        }
                        nc.push(d);
                    },
                }
            }
            proof {
                assert(uv.subrange(0, u@.len() as int) =~= uv);
                lemma_split_consts_depth::<C>(uv);
                lemma_max_depth_bound(views(nc@), max_add_depth(uv));
                lemma_flatten_depth::<C>(SExpr::Mul(views(nc@)));
            }
            (Expr::Mul(nc).flatten(), k)
        },
        other => (other, C::one()),
    }
}

/// A collected operand of a product split into its base and exponent.
fn split_base<C: Scalar>(c: Expr<C>) -> (r: (Expr<C>, C))
    ensures
        (r.0@, r.1@) == base_and_exp::<C>(c@),
        add_depth(r.0@) <= add_depth(c@),
{
    let ghost cv = c@;
    proof {
        reveal_with_fuel(expr_view, 2);
    }
    match c {
        Expr::Pow(a, b) => match *b {
            Expr::Const(e) => {
                let r = (*a, e);
                assert((r.0@, r.1@) == base_and_exp::<C>(cv));
                r
            },
            other => {
                let r = Expr::Pow(a, Box::new(other));
                assert(r@ == cv);
                (r, C::one())
            },
        },
        other => (other, C::one()),
    }
}

/// The distinct terms of the collected operands of a sum, with their summed
/// coefficients.
#[verifier::loop_isolation(false)]
fn add_groups_exec<C: Coefficient>(t: &Vec<Expr<C>>, Ghost(f): Ghost<nat>) -> (r: (Vec<Expr<C>>, Vec<C>))
    requires
        max_add_depth(views(t@)) <= f,
    ensures
        (views(r.0@), cviews(r.1@)) == add_groups::<C>(views(t@), f),
        r.0@.len() == r.1@.len(),
        forall|k: int| 0 <= k < r.0@.len() ==> add_depth(#[trigger] r.0@[k]@) <= max_add_depth(views(t@)),
    decreases f, 1nat, t,
{
    let ghost tv = views(t@);
    let ghost d = max_add_depth(tv);
    let mut terms: Vec<Expr<C>> = Vec::new();
    let mut coefs: Vec<C> = Vec::new();
    for i in 0..t.len()
        invariant
            tv == views(t@),
            d == max_add_depth(tv),
            (views(terms@), cviews(coefs@)) == add_groups::<C>(tv.subrange(0, i as int), f),
            terms@.len() == coefs@.len(),
            forall|k: int| 0 <= k < terms@.len() ==> add_depth(#[trigger] terms@[k]@) <= d,
    {
        proof {
            lemma_prefix_step(tv, i as int);
            lemma_max_depth_elem(tv, i as int);
        }
        let c = t[i].collect_within(Ghost(f));
        let (term, coef) = split_term(c);
        match position(&terms, &term) {
            Some(k) => {
                proof {
                    lemma_position_from_range(views(terms@), term@, 0);
                }
                let ghost before = cviews(coefs@);
                let nc = coefs[k].plus(&coef);
                coefs.set(k, nc);
                proof {
                    assert(cviews(coefs@) =~= before.update(k as int, C::add_v(before[k as int], coef@)));
                }
            },
            None => {
                proof {
                    lemma_views_push(terms@, term);
                }
                let ghost before = cviews(coefs@);
                terms.push(term);
                coefs.push(coef);
                proof {
                    assert(cviews(coefs@) =~= before.push(coef@));
                }
            },
        }
    }
    proof {
        assert(tv.subrange(0, t@.len() as int) =~= tv);
    }
    (terms, coefs)
}

/// The operands of a collected sum, from its terms and coefficients.
#[verifier::loop_isolation(false)]
fn add_emit_exec<C: Coefficient>(terms: &Vec<Expr<C>>, coefs: &Vec<C>, Ghost(f): Ghost<nat>, Ghost(d): Ghost<nat>) -> (r: Vec<Expr<C>>)
    requires
        terms@.len() == coefs@.len(),
        d + 1 <= f,
        forall|k: int| 0 <= k < terms@.len() ==> add_depth(#[trigger] terms@[k]@) <= d,
    ensures
        views(r@) == add_emit::<C>(views(terms@), cviews(coefs@), f),
        forall|k: int| 0 <= k < r@.len() ==> add_depth(#[trigger] r@[k]@) <= d,
    decreases f, 0nat, terms,
{
    let ghost ts = views(terms@);
    let ghost cs = cviews(coefs@);
    let mut a: Vec<Expr<C>> = Vec::new();
    for j in 0..terms.len()
        invariant
            ts == views(terms@),
            cs == cviews(coefs@),
            views(a@) == add_emit::<C>(ts.subrange(0, j as int), cs.subrange(0, j as int), f),
            forall|k: int| 0 <= k < a@.len() ==> add_depth(#[trigger] a@[k]@) <= d,
    {
        proof {
            lemma_prefix_step(ts, j as int);
            lemma_prefix_step(cs, j as int);
            assert(ts.subrange(0, j + 1)[j as int] == terms@[j as int]@);
        }
        let term = &terms[j];
        let coef = &coefs[j];
        if term.is_zero() || coef.is_zero() {
        } else if coef.is_one() {
            let x = term.duplicate();
            proof {
                lemma_views_push(a@, x);
            }
            a.push(x);
        } else if term.is_one() {
            let x = Expr::Const(coef.duplicate());
            proof {
                lemma_views_push(a@, x);
            }
            a.push(x);
        } else {
            let mut pair: Vec<Expr<C>> = Vec::new();
            pair.push(term.duplicate());
            pair.push(Expr::Const(coef.duplicate()));
            proof {
                assert(views(pair@) =~= seq![term@, SExpr::Const(coef@)]);
                let pv = views(pair@);
                assert(add_depth(pv[1]) == 0);
                lemma_max_depth_bound(pv, add_depth(term@));
            }
            let m = Expr::Mul(pair);
            let x = m.simplify_within(Ghost((f - 1) as nat));
            proof {
                lemma_views_push(a@, x);
            }
            a.push(x);
        }
    }
    proof {
        assert(ts.subrange(0, terms@.len() as int) =~= ts);
        assert(cs.subrange(0, terms@.len() as int) =~= cs);
    }
    a
}

/// The distinct bases of the collected operands of a product, with their
/// summed exponents, and the product of the constant operands.
#[verifier::loop_isolation(false)]
fn mul_groups_exec<C: Coefficient>(t: &Vec<Expr<C>>, Ghost(f): Ghost<nat>) -> (r: (Vec<Expr<C>>, Vec<C>, C))
    requires
        max_add_depth(views(t@)) <= f,
    ensures
        (views(r.0@), cviews(r.1@), r.2@) == mul_groups::<C>(views(t@), f),
        r.0@.len() == r.1@.len(),
        forall|k: int| 0 <= k < r.0@.len() ==> add_depth(#[trigger] r.0@[k]@) <= max_add_depth(views(t@)),
    decreases f, 1nat, t,
{
    let ghost tv = views(t@);
    let ghost d = max_add_depth(tv);
    let mut bases: Vec<Expr<C>> = Vec::new();
    let mut exps: Vec<C> = Vec::new();
    let mut constant = C::one();
    for i in 0..t.len()
        invariant
            tv == views(t@),
            d == max_add_depth(tv),
            (views(bases@), cviews(exps@), constant@) == mul_groups::<C>(tv.subrange(0, i as int), f),
            bases@.len() == exps@.len(),
            forall|k: int| 0 <= k < bases@.len() ==> add_depth(#[trigger] bases@[k]@) <= d,
    {
        proof {
            lemma_prefix_step(tv, i as int);
            lemma_max_depth_elem(tv, i as int);
        }
        let c = t[i].collect_within(Ghost(f));
        match c {
            Expr::Const(v) => {
                constant = constant.times(&v);
            },
            other => {
                let (base, exp) = split_base(other);
                match position(&bases, &base) {
                    Some(k) => {
                        proof {
                            lemma_position_from_range(views(bases@), base@, 0);
                        }
                        let ghost before = cviews(exps@);
                        let ne = exps[k].plus(&exp);
                        exps.set(k, ne);
                        proof {
                            assert(cviews(exps@) =~= before.update(k as int, C::add_v(before[k as int], exp@)));
                        }
                    },
                    None => {
                        proof {
                            lemma_views_push(bases@, base);
                        }
                        let ghost before = cviews(exps@);
                        bases.push(base);
                        exps.push(exp);
                        proof {
                            assert(cviews(exps@) =~= before.push(exp@));
                        }
                    },
                }
            },
        }
    }
    proof {
        assert(tv.subrange(0, t@.len() as int) =~= tv);
    }
    (bases, exps, constant)
}

/// The operands of a collected product, from its bases, exponents and
/// constant factor.
#[verifier::loop_isolation(false)]
fn mul_emit_exec<C: Scalar>(bases: &Vec<Expr<C>>, exps: &Vec<C>, constant: C, Ghost(d): Ghost<nat>) -> (r: Vec<Expr<C>>)
    requires
        bases@.len() == exps@.len(),
        forall|k: int| 0 <= k < bases@.len() ==> add_depth(#[trigger] bases@[k]@) <= d,
    ensures
        views(r@) == mul_emit::<C>(views(bases@), cviews(exps@), constant@),
        forall|k: int| 0 <= k < r@.len() ==> add_depth(#[trigger] r@[k]@) <= d,
{
    let ghost bs = views(bases@);
    let ghost es = cviews(exps@);
    let ghost kv = constant@;
    let mut a: Vec<Expr<C>> = Vec::new();
    if !constant.is_one() {
        let k = Expr::Const(constant);
        proof {
            lemma_views_push(a@, k);
        }
        a.push(k);
    }
    let ghost pre = views(a@);
    proof {
        assert(pre + Seq::<SExpr<C::V>>::empty() =~= pre);
    }
    for j in 0..bases.len()
        invariant
            bs == views(bases@),
            es == cviews(exps@),
            views(a@) == pre + mul_emit_pairs::<C>(bs.subrange(0, j as int), es.subrange(0, j as int)),
            forall|k: int| 0 <= k < a@.len() ==> add_depth(#[trigger] a@[k]@) <= d,
    {
        proof {
            lemma_prefix_step(bs, j as int);
            lemma_prefix_step(es, j as int);
            assert(bs.subrange(0, j + 1)[j as int] == bases@[j as int]@);
        }
        let base = &bases[j];
        let exp = &exps[j];
        assert(add_depth(bases@[j as int]@) <= d);
        let ghost mprev = mul_emit_pairs::<C>(bs.subrange(0, j as int), es.subrange(0, j as int));
        if base.is_one() || exp.is_zero() {
        } else if exp.is_one() {
            let x = base.duplicate();
            proof {
                lemma_views_push(a@, x);
                assert((pre + mprev).push(x@) =~= pre + mprev.push(x@));
            }
            a.push(x);
        } else {
            let x = Expr::Pow(Box::new(base.duplicate()), Box::new(Expr::Const(exp.duplicate())));
            proof {
                reveal_with_fuel(expr_view, 2);
                assert(x@ == SExpr::Pow(Box::new(base@), Box::new(SExpr::<C::V>::Const(exp@))));
                reveal_with_fuel(add_depth, 2);
                assert(add_depth(x@) <= d);
                lemma_views_push(a@, x);
                assert((pre + mprev).push(x@) =~= pre + mprev.push(x@));
            }
            a.push(x);
        }
    }
    proof {
        assert(bs.subrange(0, bases@.len() as int) =~= bs);
        assert(es.subrange(0, bases@.len() as int) =~= es);
        assert(views(a@) =~= mul_emit::<C>(bs, es, kv));
    }
    a
}

impl<C: Coefficient> Expr<C> {
    /// Gathers like terms of sums and like bases of products.
    pub fn collect(&self) -> (r: Expr<C>)
        ensures
            r@ == collect_s::<C>(self@, add_depth(self@)),
    {
        self.collect_within(Ghost(add_depth(self@)))
    }

    /// Flattens, evaluates and collects; a result recognisably zero or one
    /// becomes that constant, and a power with a unit exponent its base.
    pub fn simplify(&self) -> (r: Expr<C>)
        ensures
            r@ == simplify_s::<C>(self@, add_depth(self@)),
            add_depth(r@) <= add_depth(self@),
    {
        self.simplify_within(Ghost(add_depth(self@)))
    }

    fn collect_within(&self, Ghost(f): Ghost<nat>) -> (r: Expr<C>)
        requires
            add_depth(self@) <= f,
        ensures
            r@ == collect_s::<C>(self@, f),
            add_depth(r@) <= add_depth(self@),
        decreases f, 1nat, self,
    {
        match self {
            Expr::Add(t) => {
                let ghost d = max_add_depth(views(t@));
                let (terms, coefs) = add_groups_exec(t, Ghost(f));
                let a = add_emit_exec(&terms, &coefs, Ghost(f), Ghost(d));
                proof {
                    assert forall|i: int| 0 <= i < views(a@).len() implies add_depth(#[trigger] views(a@)[i]) <= d by {
                        assert(views(a@)[i] == a@[i]@);
                    }
                    lemma_max_depth_bound(views(a@), d);
                    lemma_flatten_depth::<C>(SExpr::Add(views(a@)));
                }
                Expr::Add(a).flatten()
            },
            Expr::Mul(t) => {
                let ghost d = max_add_depth(views(t@));
                let (bases, exps, constant) = mul_groups_exec(t, Ghost(f));
                let a = mul_emit_exec(&bases, &exps, constant, Ghost(d));
                proof {
                    assert forall|i: int| 0 <= i < views(a@).len() implies add_depth(#[trigger] views(a@)[i]) <= d by {
                        assert(views(a@)[i] == a@[i]@);
                    }
                    lemma_max_depth_bound(views(a@), d);
                    lemma_flatten_depth::<C>(SExpr::Mul(views(a@)));
                }
                Expr::Mul(a).flatten()
            },
            Expr::Pow(a, b) => Expr::Pow(Box::new(a.collect_within(Ghost(f))), Box::new(b.collect_within(Ghost(f)))),
            _ => self.duplicate(),
        }
    }

    fn simplify_within(&self, Ghost(f): Ghost<nat>) -> (r: Expr<C>)
        requires
            add_depth(self@) <= f,
        ensures
            r@ == simplify_s::<C>(self@, f),
            add_depth(r@) <= add_depth(self@),
        decreases f, 2nat, self,
    {
        let fl = self.flatten();
        let ev = fl.evaluate();
        proof {
            lemma_flatten_depth::<C>(self@);
            lemma_evaluate_depth::<C>(fl@);
        }
        let c = ev.collect_within(Ghost(f));
        if c.is_zero() {
            Expr::zero()
        } else if c.is_one() {
            Expr::one()
        } else {
            match c {
                Expr::Pow(a, b) => if b.is_one() {
                    *a
                } else {
                    Expr::Pow(a, b)
                },
                other => other,
            }
        }
    }
}

} // verus!
