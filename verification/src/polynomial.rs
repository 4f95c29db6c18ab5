use crate::coef::{Coefficient, Scalar};
use crate::expr::{flatten_s, is_one_s, is_zero_s, lemma_prefix_step, Expr, SExpr};
use crate::natural::Natural;
use crate::ops::{add_s, div_s, mul_s, neg_s, sub_s};
use crate::sorted_map::{
    get_s, insert_s, law_get_insert, lemma_get_absent, lemma_get_at, lemma_get_cases, lemma_insert_sorted, lemma_slot,
    remove_s, sorted_keys, MapKey, SortedMap,
};
use crate::symbol::{share, Symbol};
use crate::term::{deg_s, term_mul_s, term_pow_s, total_s, Term, TermV};
use std::sync::Arc;
use vstd::prelude::*;

verus! {

/// The model of a polynomial: its monomials in increasing order, each with
/// its coefficient expression.
pub type PolyV<V> = Seq<(TermV, SExpr<V>)>;

/// The coefficient stored for monomial `t`.
pub open spec fn pget<V>(p: PolyV<V>, t: TermV) -> Option<SExpr<V>> {
    get_s::<Term, SExpr<V>>(p, t)
}

/// `p` with monomial `t` given coefficient `c`.
pub open spec fn pinsert<V>(p: PolyV<V>, t: TermV, c: SExpr<V>) -> PolyV<V> {
    insert_s::<Term, SExpr<V>>(p, t, c)
}

/// The polynomial whose only monomial is one, with coefficient `c`.
pub open spec fn constant_poly<V>(c: SExpr<V>) -> PolyV<V> {
    seq![(Seq::<(Seq<char>, nat)>::empty(), c)]
}

/// The polynomial zero: the monomial one with coefficient zero.
pub open spec fn zero_poly<C: Scalar>() -> PolyV<C::V> {
    constant_poly(SExpr::Const(C::zero_v()))
}

/// The polynomial one.
pub open spec fn one_poly<C: Scalar>() -> PolyV<C::V> {
    constant_poly(SExpr::Const(C::one_v()))
}

/// The polynomial `t` with coefficient one.
pub open spec fn term_poly<C: Scalar>(t: TermV) -> PolyV<C::V> {
    seq![(t, SExpr::Const(C::one_v()))]
}

/// Every coefficient is recognisably zero.
pub open spec fn poly_is_zero<C: Scalar>(p: PolyV<C::V>) -> bool {
    forall|i: int| 0 <= i < p.len() ==> is_zero_s::<C>(#[trigger] p[i].1)
}

/// The monomial one has coefficient one and every other monomial
/// coefficient zero. A polynomial with no entry at all counts as one (and
/// as zero).
pub open spec fn poly_is_one<C: Scalar>(p: PolyV<C::V>) -> bool {
    forall|i: int|
        0 <= i < p.len() ==> if (#[trigger] p[i]).0.len() == 0 {
            is_one_s::<C>(p[i].1)
        } else {
            is_zero_s::<C>(p[i].1)
        }
}

/// The largest degree of `sym` among monomials whose coefficient is not
/// recognisably zero; zero where there is none.
pub open spec fn degree_s<C: Scalar>(p: PolyV<C::V>, sym: Seq<char>) -> nat
    decreases p.len(),
{
    if p.len() == 0 {
        0
    } else {
        let d = degree_s::<C>(p.subrange(0, p.len() - 1), sym);
        let e = p[p.len() - 1];
        if is_zero_s::<C>(e.1) || deg_s(e.0, sym) <= d {
            d
        } else {
            deg_s(e.0, sym)
        }
    }
}

/// The largest total degree among monomials whose coefficient is not
/// recognisably zero; zero where there is none.
pub open spec fn total_degree_s<C: Scalar>(p: PolyV<C::V>) -> nat
    decreases p.len(),
{
    if p.len() == 0 {
        0
    } else {
        let d = total_degree_s::<C>(p.subrange(0, p.len() - 1));
        let e = p[p.len() - 1];
        if is_zero_s::<C>(e.1) || total_s(e.0) <= d {
            d
        } else {
            total_s(e.0)
        }
    }
}

/// `k` raised to the constant `d`.
pub open spec fn power_of<C: Coefficient>(k: Seq<char>, d: nat) -> SExpr<C::V> {
    SExpr::Pow(Box::new(SExpr::Symbol(k)), Box::new(SExpr::Const(C::from_nat_v(d))))
}

/// A monomial as an expression: one times each symbol raised to its degree,
/// in order, each product simplified.
pub open spec fn term_expr<C: Coefficient>(t: TermV) -> SExpr<C::V>
    decreases t.len(),
{
    if t.len() == 0 {
        SExpr::Const(C::one_v())
    } else {
        let e = t[t.len() - 1];
        mul_s::<C>(term_expr::<C>(t.subrange(0, t.len() - 1)), power_of::<C>(e.0, e.1))
    }
}

/// A polynomial as an expression: zero plus each coefficient times its
/// monomial, in order, each step simplified.
pub open spec fn poly_expr<C: Coefficient>(p: PolyV<C::V>) -> SExpr<C::V>
    decreases p.len(),
{
    if p.len() == 0 {
        SExpr::Const(C::zero_v())
    } else {
        let e = p[p.len() - 1];
        add_s::<C>(poly_expr::<C>(p.subrange(0, p.len() - 1)), mul_s::<C>(e.1, term_expr::<C>(e.0)))
    }
}

/// `acc` with each entry of `e` added in turn: a monomial already present
/// gets the simplified sum of the two coefficients, a new one its
/// coefficient flattened.
pub open spec fn add_into<C: Coefficient>(acc: PolyV<C::V>, e: PolyV<C::V>) -> PolyV<C::V>
    decreases e.len(),
{
    if e.len() == 0 {
        acc
    } else {
        let a2 = add_into::<C>(acc, e.subrange(0, e.len() - 1));
        let (t, b) = e[e.len() - 1];
        pinsert(
            a2,
            t,
            match pget(a2, t) {
                Some(a) => add_s::<C>(a, b),
                None => flatten_s::<C>(b),
            },
        )
    }
}

/// The sum: the entries of both added into an empty polynomial.
pub open spec fn poly_add_s<C: Coefficient>(p: PolyV<C::V>, q: PolyV<C::V>) -> PolyV<C::V> {
    add_into::<C>(Seq::empty(), p + q)
}

/// `acc` with each entry of `e` subtracted in turn: a monomial already
/// present gets the simplified difference, a new one the negation of its
/// flattened coefficient.
pub open spec fn sub_into<C: Coefficient>(acc: PolyV<C::V>, e: PolyV<C::V>) -> PolyV<C::V>
    decreases e.len(),
{
    if e.len() == 0 {
        acc
    } else {
        let a2 = sub_into::<C>(acc, e.subrange(0, e.len() - 1));
        let (t, b) = e[e.len() - 1];
        pinsert(
            a2,
            t,
            match pget(a2, t) {
                Some(a) => sub_s::<C>(a, b),
                None => neg_s::<C>(flatten_s::<C>(b)),
            },
        )
    }
}

/// The difference: the entries of `q` subtracted from `p`.
pub open spec fn poly_sub_s<C: Coefficient>(p: PolyV<C::V>, q: PolyV<C::V>) -> PolyV<C::V> {
    sub_into::<C>(p, q)
}

/// `acc` with the product of entry `x` and each entry of `ys` added in turn.
pub open spec fn mul_row<C: Coefficient>(
    acc: PolyV<C::V>,
    x: (TermV, SExpr<C::V>),
    ys: PolyV<C::V>,
) -> PolyV<C::V>
    decreases ys.len(),
{
    if ys.len() == 0 {
        acc
    } else {
        let a2 = mul_row::<C>(acc, x, ys.subrange(0, ys.len() - 1));
        let y = ys[ys.len() - 1];
        let t = term_mul_s(x.0, y.0);
        let b = mul_s::<C>(x.1, y.1);
        pinsert(
            a2,
            t,
            match pget(a2, t) {
                Some(a) => add_s::<C>(a, b),
                None => b,
            },
        )
    }
}

/// `acc` with the products of each entry of `xs` with each of `ys`.
pub open spec fn mul_into<C: Coefficient>(
    acc: PolyV<C::V>,
    xs: PolyV<C::V>,
    ys: PolyV<C::V>,
) -> PolyV<C::V>
    decreases xs.len(),
{
    if xs.len() == 0 {
        acc
    } else {
        mul_row::<C>(mul_into::<C>(acc, xs.subrange(0, xs.len() - 1), ys), xs[xs.len() - 1], ys)
    }
}

/// The product: every pair of entries multiplied, products of equal
/// monomials added.
pub open spec fn poly_mul_s<C: Coefficient>(p: PolyV<C::V>, q: PolyV<C::V>) -> PolyV<C::V> {
    mul_into::<C>(Seq::empty(), p, q)
}

/// The sum of `coef * m` over the entries whose degree in `sym` is `d`,
/// where `m` is the monomial without `sym`.
pub open spec fn lead_fold<C: Coefficient>(p: PolyV<C::V>, sym: Seq<char>, d: nat) -> SExpr<C::V>
    decreases p.len(),
{
    if p.len() == 0 {
        SExpr::Const(C::zero_v())
    } else {
        let a = lead_fold::<C>(p.subrange(0, p.len() - 1), sym, d);
        let (t, c) = p[p.len() - 1];
        if deg_s(t, sym) != d {
            a
        } else {
            add_s::<C>(a, mul_s::<C>(c, term_expr::<C>(remove_s::<Arc<Symbol>, nat>(t, sym))))
        }
    }
}

/// The leading coefficient in `sym`: the coefficients of the monomials of
/// highest degree in `sym`, each times the rest of its monomial, summed.
pub open spec fn leading_coef_s<C: Coefficient>(p: PolyV<C::V>, sym: Seq<char>) -> SExpr<C::V> {
    lead_fold::<C>(p, sym, degree_s::<C>(p, sym))
}

/// The part of a monomial that is a power of `sym`.
pub open spec fn regard_term(t: TermV, sym: Seq<char>) -> TermV {
    match get_s::<Arc<Symbol>, nat>(t, sym) {
        Some(d) => seq![(sym, d)],
        None => Seq::empty(),
    }
}

/// The coefficient `c` times each other symbol of `t` raised to its degree.
pub open spec fn regard_coef<C: Coefficient>(c: SExpr<C::V>, t: TermV, sym: Seq<char>) -> SExpr<C::V>
    decreases t.len(),
{
    if t.len() == 0 {
        c
    } else {
        let a = regard_coef::<C>(c, t.subrange(0, t.len() - 1), sym);
        let (k, d) = t[t.len() - 1];
        if k == sym {
            a
        } else {
            mul_s::<C>(a, power_of::<C>(k, d))
        }
    }
}

/// `p` with `c` added to the coefficient of monomial `t`: the simplified sum
/// where `t` is present, `c` itself where it is not.
pub open spec fn padd<C: Coefficient>(p: PolyV<C::V>, t: TermV, c: SExpr<C::V>) -> PolyV<C::V> {
    pinsert(
        p,
        t,
        match pget(p, t) {
            Some(a) => add_s::<C>(a, c),
            None => c,
        },
    )
}

/// The polynomial seen as one in `sym` alone: every other symbol moves into
/// the coefficient, and the coefficients of entries whose monomials come
/// out equal are added.
pub open spec fn regard_as_s<C: Coefficient>(p: PolyV<C::V>, sym: Seq<char>) -> PolyV<C::V>
    decreases p.len(),
{
    if p.len() == 0 {
        Seq::empty()
    } else {
        let (t, c) = p[p.len() - 1];
        padd::<C>(
            regard_as_s::<C>(p.subrange(0, p.len() - 1), sym),
            regard_term(t, sym),
            regard_coef::<C>(c, t, sym),
        )
    }
}

/// The monomial with the degree of `sym` lowered by one.
pub open spec fn diff_term(t: TermV, sym: Seq<char>) -> TermV {
    Seq::new(t.len(), |i: int| if t[i].0 == sym { (t[i].0, (t[i].1 - 1) as nat) } else { t[i] })
}

/// The coefficient `c` times the degree of `sym` in `t`, where `sym` occurs.
pub open spec fn diff_coef<C: Coefficient>(c: SExpr<C::V>, t: TermV, sym: Seq<char>) -> SExpr<C::V>
    decreases t.len(),
{
    if t.len() == 0 {
        c
    } else {
        let a = diff_coef::<C>(c, t.subrange(0, t.len() - 1), sym);
        let (k, d) = t[t.len() - 1];
        if k == sym {
            mul_s::<C>(a, SExpr::Const(C::from_nat_v(d)))
        } else {
            a
        }
    }
}

/// The derivative in `sym`: monomials without `sym` drop out, every other
/// entry gets its coefficient times the degree of `sym` and that degree
/// lowered by one; coefficients of entries whose monomials come out equal
/// are added.
pub open spec fn diff_s<C: Coefficient>(p: PolyV<C::V>, sym: Seq<char>) -> PolyV<C::V>
    decreases p.len(),
{
    if p.len() == 0 {
        Seq::empty()
    } else {
        let a = diff_s::<C>(p.subrange(0, p.len() - 1), sym);
        let (t, c) = p[p.len() - 1];
        if get_s::<Arc<Symbol>, nat>(t, sym) is None {
            a
        } else {
            padd::<C>(a, diff_term(t, sym), diff_coef::<C>(c, t, sym))
        }
    }
}

/// No monomial lists `sym` with degree zero (lowering it would go below
/// zero).
pub open spec fn no_zero_degree<V>(p: PolyV<V>, sym: Seq<char>) -> bool {
    forall|i: int, j: int|
        0 <= i < p.len() && 0 <= j < p[i].0.len() && (#[trigger] p[i].0[j]).0 == sym ==> p[i].0[j].1 > 0
}

/// `sym` to the power `n`, as a monomial.
pub open spec fn sym_power(sym: Seq<char>, n: nat) -> TermV {
    term_pow_s(seq![(sym, 1nat)], n)
}

/// One step of division by `g` in `sym`: the leading coefficient of `r`
/// over that of `g`, times `sym` to the difference of the degrees, is added
/// to the quotient, and its product with `g` taken from the remainder.
pub open spec fn division_step<C: Coefficient>(
    q: PolyV<C::V>,
    r: PolyV<C::V>,
    g: PolyV<C::V>,
    l: nat,
    sym: Seq<char>,
) -> (PolyV<C::V>, PolyV<C::V>) {
    let a = poly_mul_s::<C>(
        constant_poly(div_s::<C>(leading_coef_s::<C>(r, sym), leading_coef_s::<C>(g, sym))),
        term_poly::<C>(sym_power(sym, (degree_s::<C>(r, sym) - l) as nat)),
    );
    (poly_add_s::<C>(q, a), poly_sub_s::<C>(r, poly_mul_s::<C>(a, g)))
}

/// Division steps, at most `fuel` of them, until the degree of the
/// remainder in `sym` is below `l`; `None` where `fuel` steps do not get
/// there.
pub open spec fn division_run<C: Coefficient>(
    q: PolyV<C::V>,
    r: PolyV<C::V>,
    g: PolyV<C::V>,
    l: nat,
    sym: Seq<char>,
    fuel: nat,
) -> Option<(PolyV<C::V>, PolyV<C::V>)>
    decreases fuel,
{
    if degree_s::<C>(r, sym) < l {
        Some((q, r))
    } else if fuel == 0 {
        None
    } else {
        let (q2, r2) = division_step::<C>(q, r, g, l, sym);
        division_run::<C>(q2, r2, g, l, sym, (fuel - 1) as nat)
    }
}

/// The division of `p` by `h` in `sym`, from a zero quotient and `p` as the
/// remainder, for at most `fuel` steps.
#[verifier::opaque]
pub open spec fn division_start<C: Coefficient>(
    p: PolyV<C::V>,
    h: PolyV<C::V>,
    sym: Seq<char>,
    fuel: nat,
) -> Option<(PolyV<C::V>, PolyV<C::V>)> {
    let g = regard_as_s::<C>(h, sym);
    division_run::<C>(zero_poly::<C>(), regard_as_s::<C>(p, sym), g, degree_s::<C>(g, sym), sym, fuel)
}

/// Whether the division of `p` by `h` in `sym` comes to an end: the steps
/// go on for as long as the remainder's degree is not below the divisor's,
/// which is forever where the divisor is a constant or where the leading
/// terms never cancel symbolically.
pub open spec fn divmod_ends<C: Coefficient>(p: PolyV<C::V>, h: PolyV<C::V>, sym: Seq<char>) -> bool {
    exists|fuel: nat| (#[trigger] division_start::<C>(p, h, sym, fuel)) is Some
}

/// Quotient and remainder of `p` by `h`, both seen as polynomials in `sym`,
/// where the division ends.
pub open spec fn divmod_s<C: Coefficient>(p: PolyV<C::V>, h: PolyV<C::V>, sym: Seq<char>) -> (
    PolyV<C::V>,
    PolyV<C::V>,
) {
    division_start::<C>(
        p,
        h,
        sym,
        choose|fuel: nat| (#[trigger] division_start::<C>(p, h, sym, fuel)) is Some,
    )->0
}

/// One step of pseudo-division: the remainder is multiplied by the leading
/// coefficient `a` of the divisor before the leading term of the remainder,
/// times `g`, is taken away; the quotient likewise.
pub open spec fn pseudo_step<C: Coefficient>(
    q: PolyV<C::V>,
    r: PolyV<C::V>,
    g: PolyV<C::V>,
    a: PolyV<C::V>,
    l: nat,
    sym: Seq<char>,
) -> (PolyV<C::V>, PolyV<C::V>) {
    let b = poly_mul_s::<C>(
        constant_poly(leading_coef_s::<C>(r, sym)),
        term_poly::<C>(sym_power(sym, (degree_s::<C>(r, sym) - l) as nat)),
    );
    (
        poly_add_s::<C>(poly_mul_s::<C>(q, a), b),
        poly_sub_s::<C>(poly_mul_s::<C>(r, a), poly_mul_s::<C>(b, g)),
    )
}

/// Pseudo-division steps, at most `fuel` of them, counting them from `s`,
/// until the degree of the remainder in `sym` is below `l`; `None` where
/// `fuel` steps do not get there.
pub open spec fn pseudo_run<C: Coefficient>(
    q: PolyV<C::V>,
    r: PolyV<C::V>,
    s: nat,
    g: PolyV<C::V>,
    a: PolyV<C::V>,
    l: nat,
    sym: Seq<char>,
    fuel: nat,
) -> Option<(PolyV<C::V>, PolyV<C::V>, nat)>
    decreases fuel,
{
    if degree_s::<C>(r, sym) < l {
        Some((q, r, s))
    } else if fuel == 0 {
        None
    } else {
        let (q2, r2) = pseudo_step::<C>(q, r, g, a, l, sym);
        pseudo_run::<C>(q2, r2, s + 1, g, a, l, sym, (fuel - 1) as nat)
    }
}

/// The pseudo-division of `p` by `h` in `sym`, from a zero quotient, `p` as
/// the remainder and no steps, for at most `fuel` steps.
#[verifier::opaque]
pub open spec fn pseudo_start<C: Coefficient>(
    p: PolyV<C::V>,
    h: PolyV<C::V>,
    sym: Seq<char>,
    fuel: nat,
) -> Option<(PolyV<C::V>, PolyV<C::V>, nat)> {
    let g = regard_as_s::<C>(h, sym);
    pseudo_run::<C>(
        zero_poly::<C>(),
        regard_as_s::<C>(p, sym),
        0,
        g,
        constant_poly(leading_coef_s::<C>(g, sym)),
        degree_s::<C>(g, sym),
        sym,
        fuel,
    )
}

/// Whether the pseudo-division of `p` by `h` in `sym` comes to an end.
pub open spec fn pseudo_divmod_ends<C: Coefficient>(
    p: PolyV<C::V>,
    h: PolyV<C::V>,
    sym: Seq<char>,
) -> bool {
    exists|fuel: nat| (#[trigger] pseudo_start::<C>(p, h, sym, fuel)) is Some
}

/// Pseudo-quotient, pseudo-remainder and number of steps of `p` by `h`,
/// both seen as polynomials in `sym`, where the pseudo-division ends.
pub open spec fn pseudo_divmod_s<C: Coefficient>(
    p: PolyV<C::V>,
    h: PolyV<C::V>,
    sym: Seq<char>,
) -> (PolyV<C::V>, PolyV<C::V>, nat) {
    pseudo_start::<C>(
        p,
        h,
        sym,
        choose|fuel: nat| (#[trigger] pseudo_start::<C>(p, h, sym, fuel)) is Some,
    )->0
}

/// The sum of the polynomials, from zero, where every one of them exists.
pub open spec fn sum_polys<C: Coefficient>(ps: Seq<Option<PolyV<C::V>>>) -> Option<PolyV<C::V>>
    decreases ps.len(),
{
    if ps.len() == 0 {
        Some(zero_poly::<C>())
    } else {
        match (sum_polys::<C>(ps.subrange(0, ps.len() - 1)), ps[ps.len() - 1]) {
            (Some(a), Some(b)) => Some(poly_add_s::<C>(a, b)),
            _ => None,
        }
    }
}

/// The product of the polynomials, from one, where every one of them exists.
pub open spec fn product_polys<C: Coefficient>(ps: Seq<Option<PolyV<C::V>>>) -> Option<PolyV<C::V>>
    decreases ps.len(),
{
    if ps.len() == 0 {
        Some(one_poly::<C>())
    } else {
        match (product_polys::<C>(ps.subrange(0, ps.len() - 1)), ps[ps.len() - 1]) {
            (Some(a), Some(b)) => Some(poly_mul_s::<C>(a, b)),
            _ => None,
        }
    }
}

/// The polynomial a flattened expression stands for: a constant, a symbol,
/// a sum or product of such, or a symbol raised to a constant that is a
/// natural number; `None` for anything else.
pub open spec fn poly_of_flat<C: Coefficient>(e: SExpr<C::V>) -> Option<PolyV<C::V>>
    decreases e,
{
    match e {
        SExpr::Const(c) => Some(constant_poly(SExpr::Const(c))),
        SExpr::Symbol(s) => Some(seq![(seq![(s, 1nat)], SExpr::Const(C::one_v()))]),
        SExpr::Add(t) => sum_polys::<C>(operand_polys::<C>(t)),
        SExpr::Mul(t) => product_polys::<C>(operand_polys::<C>(t)),
        SExpr::Pow(a, b) => match (*a, *b) {
            (SExpr::Symbol(s), SExpr::Const(c)) => match C::to_nat_v(c) {
                Some(n) => Some(seq![(seq![(s, n)], SExpr::Const(C::one_v()))]),
                None => None,
            },
            _ => None,
        },
    }
}

/// The polynomials that the operands stand for.
pub open spec fn operand_polys<C: Coefficient>(t: Seq<SExpr<C::V>>) -> Seq<Option<PolyV<C::V>>>
    decreases t,
{
    Seq::new(t.len(), |i: int| if 0 <= i < t.len() { poly_of_flat::<C>(t[i]) } else { None })
}

/// The polynomial an expression stands for, read from its flattened form.
pub open spec fn poly_of<C: Coefficient>(e: SExpr<C::V>) -> Option<PolyV<C::V>> {
    poly_of_flat::<C>(flatten_s::<C>(e))
}

/// The polynomial zero is zero and the polynomial one is one.
pub proof fn law_zero_one<C: Coefficient>()
    ensures
        poly_is_zero::<C>(zero_poly::<C>()),
        poly_is_one::<C>(one_poly::<C>()),
        !poly_is_zero::<C>(one_poly::<C>()) || C::one_v() == C::zero_v(),
{
    assert(zero_poly::<C>()[0].1 == SExpr::<C::V>::Const(C::zero_v()));
    assert(one_poly::<C>()[0].1 == SExpr::<C::V>::Const(C::one_v()));
    assert(one_poly::<C>()[0].0.len() == 0);
}

/// A monomial that is one or a power of `sym` alone.
pub open spec fn in_symbol_alone(sym: Seq<char>) -> spec_fn(TermV) -> bool {
    |t: TermV| t.len() == 0 || (t.len() == 1 && t[0].0 == sym)
}

/// A polynomial seen as one in `sym` has no monomial with another symbol.
pub proof fn law_regard_as_in_symbol<C: Coefficient>(p: PolyV<C::V>, sym: Seq<char>)
    ensures
        crate::sorted_map::all_keys(regard_as_s::<C>(p, sym), in_symbol_alone(sym)),
        crate::sorted_map::sorted_keys::<Term, SExpr<C::V>>(regard_as_s::<C>(p, sym)),
    decreases p.len(),
{
    if p.len() > 0 {
        law_regard_as_in_symbol::<C>(p.subrange(0, p.len() - 1), sym);
        let (t, c) = p[p.len() - 1];
        let prev = regard_as_s::<C>(p.subrange(0, p.len() - 1), sym);
        let k = regard_term(t, sym);
        let v = match pget(prev, k) {
            Some(a) => add_s::<C>(a, regard_coef::<C>(c, t, sym)),
            None => regard_coef::<C>(c, t, sym),
        };
        crate::sorted_map::lemma_insert_sorted::<Term, SExpr<C::V>>(prev, k, v);
        crate::sorted_map::lemma_insert_keys::<Term, SExpr<C::V>>(prev, k, v, in_symbol_alone(sym));
    }
}

/// A division run that ends within `f1` steps and one that ends within
/// `f2` steps give the same result; a run that ends leaves a remainder
/// below degree `l`.
proof fn lemma_division_run<C: Coefficient>(
    q: PolyV<C::V>,
    r: PolyV<C::V>,
    g: PolyV<C::V>,
    l: nat,
    sym: Seq<char>,
    f1: nat,
    f2: nat,
)
    ensures
        division_run::<C>(q, r, g, l, sym, f1) is Some && division_run::<C>(q, r, g, l, sym, f2) is Some
            ==> division_run::<C>(q, r, g, l, sym, f1) == division_run::<C>(q, r, g, l, sym, f2),
        division_run::<C>(q, r, g, l, sym, f1) matches Some((_, m)) ==> degree_s::<C>(m, sym) < l,
    decreases f1,
{
    if degree_s::<C>(r, sym) >= l && f1 > 0 {
        let (q2, r2) = division_step::<C>(q, r, g, l, sym);
        let g2: nat = if f2 > 0 { (f2 - 1) as nat } else { 0 };
        lemma_division_run::<C>(q2, r2, g, l, sym, (f1 - 1) as nat, g2);
    }
}

/// As `lemma_division_run`, for pseudo-division.
proof fn lemma_pseudo_run<C: Coefficient>(
    q: PolyV<C::V>,
    r: PolyV<C::V>,
    s: nat,
    g: PolyV<C::V>,
    a: PolyV<C::V>,
    l: nat,
    sym: Seq<char>,
    f1: nat,
    f2: nat,
)
    ensures
        pseudo_run::<C>(q, r, s, g, a, l, sym, f1) is Some && pseudo_run::<C>(q, r, s, g, a, l, sym, f2) is Some
            ==> pseudo_run::<C>(q, r, s, g, a, l, sym, f1) == pseudo_run::<C>(q, r, s, g, a, l, sym, f2),
        pseudo_run::<C>(q, r, s, g, a, l, sym, f1) matches Some((_, m, _)) ==> degree_s::<C>(m, sym) < l,
    decreases f1,
{
    if degree_s::<C>(r, sym) >= l && f1 > 0 {
        let (q2, r2) = pseudo_step::<C>(q, r, g, a, l, sym);
        let g2: nat = if f2 > 0 { (f2 - 1) as nat } else { 0 };
        lemma_pseudo_run::<C>(q2, r2, s + 1, g, a, l, sym, (f1 - 1) as nat, g2);
        assert(pseudo_run::<C>(q, r, s, g, a, l, sym, f1) == pseudo_run::<C>(q2, r2, s + 1, g, a, l, sym, (f1 - 1) as nat));
    }
}

/// Division and pseudo-division, where they end, leave a remainder whose
/// degree in `sym` is below that of the divisor (seen as a polynomial in
/// `sym`).
pub proof fn law_remainder_degree<C: Coefficient>(p: PolyV<C::V>, h: PolyV<C::V>, sym: Seq<char>)
    ensures
        divmod_ends::<C>(p, h, sym) ==> degree_s::<C>(divmod_s::<C>(p, h, sym).1, sym) < degree_s::<C>(
            regard_as_s::<C>(h, sym),
            sym,
        ),
        pseudo_divmod_ends::<C>(p, h, sym) ==> degree_s::<C>(pseudo_divmod_s::<C>(p, h, sym).1, sym)
            < degree_s::<C>(regard_as_s::<C>(h, sym), sym),
{
    reveal(division_start);
    reveal(pseudo_start);
    let g = regard_as_s::<C>(h, sym);
    if divmod_ends::<C>(p, h, sym) {
        let f = choose|fuel: nat| (#[trigger] division_start::<C>(p, h, sym, fuel)) is Some;
        lemma_division_run::<C>(zero_poly::<C>(), regard_as_s::<C>(p, sym), g, degree_s::<C>(g, sym), sym, f, f);
    }
    if pseudo_divmod_ends::<C>(p, h, sym) {
        let f = choose|fuel: nat| (#[trigger] pseudo_start::<C>(p, h, sym, fuel)) is Some;
        lemma_pseudo_run::<C>(
            zero_poly::<C>(),
            regard_as_s::<C>(p, sym),
            0,
            g,
            constant_poly(leading_coef_s::<C>(g, sym)),
            degree_s::<C>(g, sym),
            sym,
            f,
            f,
        );
    }
}

proof fn lemma_first_not_below_keys(a: TermV, b: TermV, k: Seq<char>, j: int)
    requires
        a.len() == b.len(),
        forall|i: int| 0 <= i < a.len() ==> (#[trigger] a[i]).0 == b[i].0,
    ensures
        crate::sorted_map::first_not_below::<Arc<Symbol>, nat>(a, k, j)
            == crate::sorted_map::first_not_below::<Arc<Symbol>, nat>(b, k, j),
        j >= 0 ==> crate::sorted_map::first_not_below::<Arc<Symbol>, nat>(a, k, j) >= j,
    decreases a.len() - j,
{
    if 0 <= j < a.len() {
        assert(a[j].0 == b[j].0);
        lemma_first_not_below_keys(a, b, k, j + 1);
    }
}

/// A monomial with the same symbols in the same places lists the same
/// symbols.
proof fn lemma_get_same_keys(a: TermV, b: TermV, k: Seq<char>)
    requires
        a.len() == b.len(),
        forall|i: int| 0 <= i < a.len() ==> (#[trigger] a[i]).0 == b[i].0,
    ensures
        (get_s::<Arc<Symbol>, nat>(a, k) is Some) == (get_s::<Arc<Symbol>, nat>(b, k) is Some),
{
    lemma_first_not_below_keys(a, b, k, 0);
    let j = crate::sorted_map::slot::<Arc<Symbol>, nat>(a, k);
    if 0 <= j < a.len() {
        assert(a[j].0 == b[j].0);
    }
}

/// Every monomial of a derivative in `sym` lists `sym`: monomials without it
/// drop out.
pub proof fn law_diff_keeps_symbol<C: Coefficient>(p: PolyV<C::V>, sym: Seq<char>)
    ensures
        crate::sorted_map::all_keys(
            diff_s::<C>(p, sym),
            |t: TermV| get_s::<Arc<Symbol>, nat>(t, sym) is Some,
        ),
        crate::sorted_map::sorted_keys::<Term, SExpr<C::V>>(diff_s::<C>(p, sym)),
    decreases p.len(),
{
    if p.len() > 0 {
        law_diff_keeps_symbol::<C>(p.subrange(0, p.len() - 1), sym);
        let (t, c) = p[p.len() - 1];
        if get_s::<Arc<Symbol>, nat>(t, sym) is Some {
            let prev = diff_s::<C>(p.subrange(0, p.len() - 1), sym);
            let k = diff_term(t, sym);
            let v = match pget(prev, k) {
                Some(a) => add_s::<C>(a, diff_coef::<C>(c, t, sym)),
                None => diff_coef::<C>(c, t, sym),
            };
            lemma_get_same_keys(t, k, sym);
            crate::sorted_map::lemma_insert_sorted::<Term, SExpr<C::V>>(prev, k, v);
            crate::sorted_map::lemma_insert_keys::<Term, SExpr<C::V>>(
                prev,
                k,
                v,
                |t: TermV| get_s::<Arc<Symbol>, nat>(t, sym) is Some,
            );
        }
    }
}

/// The keys of a sorted monomial are distinct.
proof fn lemma_term_keys_distinct(t: TermV, i: int, j: int)
    requires
        sorted_keys::<Arc<Symbol>, nat>(t),
        0 <= i < j < t.len(),
    ensures
        t[i].0 != t[j].0,
{
    <Arc<Symbol> as MapKey>::lemma_key_order(t[i].0, t[j].0, t[j].0);
}

/// A one-entry polynomial built by inserting into no entries.
proof fn lemma_padd_empty<C: Coefficient>(t: TermV, c: SExpr<C::V>)
    ensures
        padd::<C>(Seq::empty(), t, c) == seq![(t, c)],
{
    let e = Seq::<(TermV, SExpr<C::V>)>::empty();
    lemma_slot::<Term, SExpr<C::V>>(e, t);
    assert(insert_s::<Term, SExpr<C::V>>(e, t, c) =~= seq![(t, c)]);
}

proof fn lemma_diff_coef_prefix<C: Coefficient>(c: SExpr<C::V>, t: TermV, sym: Seq<char>, j: int, m: int)
    requires
        0 <= j < t.len(),
        t[j].0 == sym,
        forall|i: int| 0 <= i < t.len() && i != j ==> (#[trigger] t[i]).0 != sym,
        0 <= m <= t.len(),
    ensures
        diff_coef::<C>(c, t.subrange(0, m), sym) == if m <= j {
            c
        } else {
            mul_s::<C>(c, SExpr::Const(C::from_nat_v(t[j].1)))
        },
    decreases m,
{
    if m > 0 {
        lemma_diff_coef_prefix::<C>(c, t, sym, j, m - 1);
        assert(t.subrange(0, m).subrange(0, m - 1) =~= t.subrange(0, m - 1));
    }
}

/// The derivative in `sym` of a polynomial of one monomial in which `sym`
/// occurs (at index `j`): the coefficient is multiplied by the degree of
/// `sym` in the monomial, whatever the degrees of its other symbols, the
/// degree of `sym` is lowered by one and every other degree stays.
pub proof fn law_diff_monomial<C: Coefficient>(t: TermV, c: SExpr<C::V>, sym: Seq<char>, j: int)
    requires
        sorted_keys::<Arc<Symbol>, nat>(t),
        0 <= j < t.len(),
        t[j].0 == sym,
    ensures
        diff_s::<C>(seq![(t, c)], sym) == seq![
            (
                t.update(j, (sym, (t[j].1 - 1) as nat)),
                mul_s::<C>(c, SExpr::Const(C::from_nat_v(t[j].1))),
            ),
        ],
{
    assert forall|i: int| 0 <= i < t.len() && i != j implies (#[trigger] t[i]).0 != sym by {
        if i < j {
            lemma_term_keys_distinct(t, i, j);
        } else {
            lemma_term_keys_distinct(t, j, i);
        }
    }
    lemma_get_at::<Arc<Symbol>, nat>(t, j);
    lemma_diff_coef_prefix::<C>(c, t, sym, j, t.len() as int);
    assert(t.subrange(0, t.len() as int) =~= t);
    assert(diff_term(t, sym) =~= t.update(j, (sym, (t[j].1 - 1) as nat)));
    let p = seq![(t, c)];
    let e = Seq::<(TermV, SExpr<C::V>)>::empty();
    assert(p.subrange(0, 0) =~= e);
    assert(diff_s::<C>(e, sym) == e);
    assert(p[0] == (t, c));
    assert(diff_s::<C>(p, sym) == padd::<C>(diff_s::<C>(p.subrange(0, 0), sym), diff_term(t, sym), diff_coef::<C>(c, t, sym)));
    lemma_padd_empty::<C>(diff_term(t, sym), diff_coef::<C>(c, t, sym));
}

/// A monomial in which `sym` does not occur drops out of the derivative.
pub proof fn law_diff_free_monomial<C: Coefficient>(t: TermV, c: SExpr<C::V>, sym: Seq<char>)
    requires
        sorted_keys::<Arc<Symbol>, nat>(t),
        forall|i: int| 0 <= i < t.len() ==> (#[trigger] t[i]).0 != sym,
    ensures
        diff_s::<C>(seq![(t, c)], sym) == Seq::<(TermV, SExpr<C::V>)>::empty(),
{
    lemma_get_absent::<Arc<Symbol>, nat>(t, sym);
    let p = seq![(t, c)];
    let e = Seq::<(TermV, SExpr<C::V>)>::empty();
    assert(p.subrange(0, 0) =~= e);
    assert(diff_s::<C>(e, sym) == e);
    assert(p[0] == (t, c));
}

proof fn lemma_regard_coef_free<C: Coefficient>(t: TermV, sym: Seq<char>)
    requires
        forall|i: int| 0 <= i < t.len() ==> (#[trigger] t[i]).0 != sym,
    ensures
        regard_coef::<C>(SExpr::Const(C::one_v()), t, sym) == term_expr::<C>(t),
    decreases t.len(),
{
    if t.len() > 0 {
        let t0 = t.subrange(0, t.len() - 1);
        assert forall|i: int| 0 <= i < t0.len() implies (#[trigger] t0[i]).0 != sym by {
            assert(t0[i] == t[i]);
        }
        lemma_regard_coef_free::<C>(t0, sym);
    }
}

/// Seen as a polynomial in `sym`, a monomial in which `sym` does not occur,
/// with coefficient one, becomes the constant monomial whose coefficient is
/// that monomial as an expression: every symbol raised to its own degree.
pub proof fn law_regard_as_free_monomial<C: Coefficient>(t: TermV, sym: Seq<char>)
    requires
        sorted_keys::<Arc<Symbol>, nat>(t),
        forall|i: int| 0 <= i < t.len() ==> (#[trigger] t[i]).0 != sym,
    ensures
        regard_as_s::<C>(seq![(t, SExpr::Const(C::one_v()))], sym) == seq![
            (Seq::<(Seq<char>, nat)>::empty(), term_expr::<C>(t)),
        ],
{
    lemma_get_absent::<Arc<Symbol>, nat>(t, sym);
    lemma_regard_coef_free::<C>(t, sym);
    let p = seq![(t, SExpr::Const(C::one_v()))];
    let e = Seq::<(TermV, SExpr<C::V>)>::empty();
    assert(p.subrange(0, 0) =~= e);
    assert(regard_as_s::<C>(e, sym) == e);
    assert(p[0] == (t, SExpr::<C::V>::Const(C::one_v())));
    assert(regard_term(t, sym) == Seq::<(Seq<char>, nat)>::empty());
    assert(regard_as_s::<C>(p, sym) == padd::<C>(regard_as_s::<C>(p.subrange(0, 0), sym), regard_term(t, sym), regard_coef::<C>(SExpr::Const(C::one_v()), t, sym)));
    lemma_padd_empty::<C>(Seq::empty(), term_expr::<C>(t));
}

/// Seen as a polynomial in `sym`, the monomial `k^d` (`k` another symbol)
/// with coefficient `c` becomes the constant monomial with coefficient
/// `c * k^d`.
pub proof fn law_regard_as_power<C: Coefficient>(k: Seq<char>, d: nat, c: SExpr<C::V>, sym: Seq<char>)
    requires
        k != sym,
    ensures
        regard_as_s::<C>(seq![(seq![(k, d)], c)], sym) == seq![
            (
                Seq::<(Seq<char>, nat)>::empty(),
                mul_s::<C>(c, SExpr::Pow(Box::new(SExpr::Symbol(k)), Box::new(SExpr::Const(C::from_nat_v(d))))),
            ),
        ],
{
    let t = seq![(k, d)];
    assert(sorted_keys::<Arc<Symbol>, nat>(t));
    lemma_get_absent::<Arc<Symbol>, nat>(t, sym);
    assert(t.subrange(0, 0) =~= Seq::<(Seq<char>, nat)>::empty());
    let p = seq![(t, c)];
    let e = Seq::<(TermV, SExpr<C::V>)>::empty();
    assert(p.subrange(0, 0) =~= e);
    assert(regard_as_s::<C>(e, sym) == e);
    assert(p[0] == (t, c));
    assert(regard_term(t, sym) == Seq::<(Seq<char>, nat)>::empty());
    assert(regard_coef::<C>(c, t.subrange(0, 0), sym) == c);
    assert(regard_coef::<C>(c, t, sym) == mul_s::<C>(c, power_of::<C>(k, d)));
    assert(regard_as_s::<C>(p, sym) == padd::<C>(regard_as_s::<C>(p.subrange(0, 0), sym), regard_term(t, sym), regard_coef::<C>(c, t, sym)));
    lemma_padd_empty::<C>(Seq::empty(), regard_coef::<C>(c, t, sym));
}

/// Whether some entry of `e` has the monomial `t`.
pub open spec fn has_term<V>(e: PolyV<V>, t: TermV) -> bool {
    exists|i: int| 0 <= i < e.len() && (#[trigger] e[i]).0 == t
}

/// Whether `t` is the product of a monomial of `x` and one of `ys`.
pub open spec fn has_product_with<V>(x: TermV, ys: PolyV<V>, t: TermV) -> bool {
    exists|j: int| 0 <= j < ys.len() && t == #[trigger] term_mul_s(x, ys[j].0)
}

/// Whether `t` is the product of a monomial of `xs` and one of `ys`.
pub open spec fn has_product<V>(xs: PolyV<V>, ys: PolyV<V>, t: TermV) -> bool {
    exists|i: int, j: int| 0 <= i < xs.len() && 0 <= j < ys.len() && t == #[trigger] term_mul_s(xs[i].0, ys[j].0)
}

/// Inserting `k` keeps the entries sorted, and afterwards a monomial is
/// stored where it was stored before or where it is `k`.
proof fn lemma_pinsert_terms<V>(p: PolyV<V>, k: TermV, c: SExpr<V>, t: TermV)
    requires
        sorted_keys::<Term, SExpr<V>>(p),
    ensures
        sorted_keys::<Term, SExpr<V>>(pinsert(p, k, c)),
        (pget(pinsert(p, k, c), t) is Some) <==> (pget(p, t) is Some || t == k),
{
    lemma_insert_sorted::<Term, SExpr<V>>(p, k, c);
    law_get_insert::<Term, SExpr<V>>(p, k, c, t);
}

/// In sorted entries a monomial is stored exactly where an entry has it.
proof fn lemma_pget_has<V>(p: PolyV<V>, t: TermV)
    requires
        sorted_keys::<Term, SExpr<V>>(p),
    ensures
        (pget(p, t) is Some) <==> has_term(p, t),
{
    lemma_get_cases::<Term, SExpr<V>>(p, t);
}

proof fn lemma_add_into_terms<C: Coefficient>(acc: PolyV<C::V>, e: PolyV<C::V>, t: TermV)
    requires
        sorted_keys::<Term, SExpr<C::V>>(acc),
    ensures
        sorted_keys::<Term, SExpr<C::V>>(add_into::<C>(acc, e)),
        (pget(add_into::<C>(acc, e), t) is Some) <==> (pget(acc, t) is Some || has_term(e, t)),
    decreases e.len(),
{
    if e.len() > 0 {
        let e0 = e.subrange(0, e.len() - 1);
        lemma_add_into_terms::<C>(acc, e0, t);
        let a2 = add_into::<C>(acc, e0);
        let (k, b) = e[e.len() - 1];
        let c = match pget(a2, k) {
            Some(a) => add_s::<C>(a, b),
            None => flatten_s::<C>(b),
        };
        lemma_pinsert_terms(a2, k, c, t);
        lemma_has_term_last(e, t);
    }
}

proof fn lemma_sub_into_terms<C: Coefficient>(acc: PolyV<C::V>, e: PolyV<C::V>, t: TermV)
    requires
        sorted_keys::<Term, SExpr<C::V>>(acc),
    ensures
        sorted_keys::<Term, SExpr<C::V>>(sub_into::<C>(acc, e)),
        (pget(sub_into::<C>(acc, e), t) is Some) <==> (pget(acc, t) is Some || has_term(e, t)),
    decreases e.len(),
{
    if e.len() > 0 {
        let e0 = e.subrange(0, e.len() - 1);
        lemma_sub_into_terms::<C>(acc, e0, t);
        let a2 = sub_into::<C>(acc, e0);
        let (k, b) = e[e.len() - 1];
        let c = match pget(a2, k) {
            Some(a) => sub_s::<C>(a, b),
            None => neg_s::<C>(flatten_s::<C>(b)),
        };
        lemma_pinsert_terms(a2, k, c, t);
        lemma_has_term_last(e, t);
    }
}

/// An entry of `e` has `t` exactly where one before the last does or the
/// last does.
proof fn lemma_has_term_last<V>(e: PolyV<V>, t: TermV)
    requires
        e.len() > 0,
    ensures
        has_term(e, t) <==> (has_term(e.subrange(0, e.len() - 1), t) || e[e.len() - 1].0 == t),
{
    let e0 = e.subrange(0, e.len() - 1);
    if has_term(e0, t) {
        let i = choose|i: int| 0 <= i < e0.len() && (#[trigger] e0[i]).0 == t;
        assert(e[i] == e0[i]);
    }
    if has_term(e, t) {
        let i = choose|i: int| 0 <= i < e.len() && (#[trigger] e[i]).0 == t;
        if i < e.len() - 1 {
            assert(e0[i] == e[i]);
        }
    }
}

proof fn lemma_mul_row_terms<C: Coefficient>(
    acc: PolyV<C::V>,
    x: (TermV, SExpr<C::V>),
    ys: PolyV<C::V>,
    t: TermV,
)
    requires
        sorted_keys::<Term, SExpr<C::V>>(acc),
    ensures
        sorted_keys::<Term, SExpr<C::V>>(mul_row::<C>(acc, x, ys)),
        (pget(mul_row::<C>(acc, x, ys), t) is Some) <==> (pget(acc, t) is Some || has_product_with(
            x.0,
            ys,
            t,
        )),
    decreases ys.len(),
{
    if ys.len() > 0 {
        let y0 = ys.subrange(0, ys.len() - 1);
        lemma_mul_row_terms::<C>(acc, x, y0, t);
        let a2 = mul_row::<C>(acc, x, y0);
        let y = ys[ys.len() - 1];
        let k = term_mul_s(x.0, y.0);
        let b = mul_s::<C>(x.1, y.1);
        let c = match pget(a2, k) {
            Some(a) => add_s::<C>(a, b),
            None => b,
        };
        lemma_pinsert_terms(a2, k, c, t);
        if has_product_with(x.0, y0, t) {
            let j = choose|j: int| 0 <= j < y0.len() && t == #[trigger] term_mul_s(x.0, y0[j].0);
            assert(ys[j] == y0[j]);
        }
        if has_product_with(x.0, ys, t) {
            let j = choose|j: int| 0 <= j < ys.len() && t == #[trigger] term_mul_s(x.0, ys[j].0);
            if j < ys.len() - 1 {
                assert(y0[j] == ys[j]);
            }
        }
        if t == k {
            assert(t == term_mul_s(x.0, ys[ys.len() - 1].0));
        }
    }
}

proof fn lemma_mul_into_terms<C: Coefficient>(
    acc: PolyV<C::V>,
    xs: PolyV<C::V>,
    ys: PolyV<C::V>,
    t: TermV,
)
    requires
        sorted_keys::<Term, SExpr<C::V>>(acc),
    ensures
        sorted_keys::<Term, SExpr<C::V>>(mul_into::<C>(acc, xs, ys)),
        (pget(mul_into::<C>(acc, xs, ys), t) is Some) <==> (pget(acc, t) is Some || has_product(xs, ys, t)),
    decreases xs.len(),
{
    if xs.len() > 0 {
        let x0 = xs.subrange(0, xs.len() - 1);
        let x = xs[xs.len() - 1];
        lemma_mul_into_terms::<C>(acc, x0, ys, t);
        lemma_mul_row_terms::<C>(mul_into::<C>(acc, x0, ys), x, ys, t);
        if has_product(x0, ys, t) {
            let (i, j) = choose|i: int, j: int|
                0 <= i < x0.len() && 0 <= j < ys.len() && t == #[trigger] term_mul_s(x0[i].0, ys[j].0);
            assert(xs[i] == x0[i]);
            assert(t == term_mul_s(xs[i].0, ys[j].0));
        }
        if has_product_with(x.0, ys, t) {
            let j = choose|j: int| 0 <= j < ys.len() && t == #[trigger] term_mul_s(x.0, ys[j].0);
            assert(t == term_mul_s(xs[xs.len() - 1].0, ys[j].0));
        }
        if has_product(xs, ys, t) {
            let (i, j) = choose|i: int, j: int|
                0 <= i < xs.len() && 0 <= j < ys.len() && t == #[trigger] term_mul_s(xs[i].0, ys[j].0);
            if i < xs.len() - 1 {
                assert(x0[i] == xs[i]);
                assert(t == term_mul_s(x0[i].0, ys[j].0));
            } else {
                assert(t == term_mul_s(x.0, ys[j].0));
            }
        }
    }
}

/// The monomials of a sum, and those of a difference, are those of either
/// operand; the monomials of a product are the products of a monomial of
/// the one factor and a monomial of the other. (Coefficients that cancel
/// leave their monomial in place.)
pub proof fn law_operation_terms<C: Coefficient>(p: PolyV<C::V>, q: PolyV<C::V>, t: TermV)
    requires
        sorted_keys::<Term, SExpr<C::V>>(p),
        sorted_keys::<Term, SExpr<C::V>>(q),
    ensures
        (pget(poly_add_s::<C>(p, q), t) is Some) <==> (pget(p, t) is Some || pget(q, t) is Some),
        (pget(poly_sub_s::<C>(p, q), t) is Some) <==> (pget(p, t) is Some || pget(q, t) is Some),
        (pget(poly_mul_s::<C>(p, q), t) is Some) <==> has_product(p, q, t),
{
    let empty = Seq::<(TermV, SExpr<C::V>)>::empty();
    lemma_pget_has(p, t);
    lemma_pget_has(q, t);
    lemma_get_absent::<Term, SExpr<C::V>>(empty, t);
    lemma_add_into_terms::<C>(empty, p + q, t);
    let pq = p + q;
    if has_term(pq, t) {
        let i = choose|i: int| 0 <= i < pq.len() && (#[trigger] pq[i]).0 == t;
        if i < p.len() {
            assert(pq[i] == p[i]);
        } else {
            assert(pq[i] == q[i - p.len()]);
        }
    }
    if has_term(p, t) {
        let i = choose|i: int| 0 <= i < p.len() && (#[trigger] p[i]).0 == t;
        assert(pq[i] == p[i]);
    }
    if has_term(q, t) {
        let i = choose|i: int| 0 <= i < q.len() && (#[trigger] q[i]).0 == t;
        assert(pq[i + p.len()] == q[i]);
    }
    lemma_sub_into_terms::<C>(p, q, t);
    lemma_mul_into_terms::<C>(empty, p, q, t);
}

/// A polynomial: monomials with coefficient expressions, kept in increasing
/// monomial order.
pub struct Polynomial<C: Coefficient>(pub SortedMap<Term, Expr<C>>);

impl<C: Coefficient> View for Polynomial<C> {
    type V = PolyV<C::V>;

    open spec fn view(&self) -> PolyV<C::V> {
        self.0@
    }
}

impl<C: Coefficient> Polynomial<C> {
    /// The polynomial whose only monomial is one, with coefficient `coef`.
    pub fn new_with_coef(coef: Expr<C>) -> (r: Polynomial<C>)
        ensures
            r@ == constant_poly(coef@),
    {
        let mut m: SortedMap<Term, Expr<C>> = SortedMap::new();
        m.insert(Term::empty(), coef);
        proof {
            crate::sorted_map::lemma_slot::<Term, SExpr<C::V>>(Seq::empty(), Seq::empty());
            assert(m@ =~= constant_poly(coef@));
        }
        Polynomial(m)
    }

    /// Zero: the monomial one with coefficient zero.
    pub fn zero() -> (r: Polynomial<C>)
        ensures
            r@ == zero_poly::<C>(),
    {
        Self::new_with_coef(Expr::zero())
    }

    /// One: the monomial one with coefficient one.
    pub fn one() -> (r: Polynomial<C>)
        ensures
            r@ == one_poly::<C>(),
    {
        Self::new_with_coef(Expr::one())
    }

    /// The monomial `t` with coefficient one.
    pub fn from_term(t: &Term) -> (r: Polynomial<C>)
        ensures
            r@ == term_poly::<C>(t@),
    {
        let mut m: SortedMap<Term, Expr<C>> = SortedMap::new();
        m.insert(t.duplicate(), Expr::one());
        proof {
            crate::sorted_map::lemma_slot::<Term, SExpr<C::V>>(Seq::empty(), t@);
            assert(m@ =~= term_poly::<C>(t@));
        }
        Polynomial(m)
    }

    /// Whether every coefficient is recognisably zero.
    pub fn is_zero(&self) -> (r: bool)
        ensures
            r == poly_is_zero::<C>(self@),
    {
        let ghost p = self@;
        let n = self.0.len();
        for i in 0..n
            invariant
                p == self@,
                n == p.len(),
                forall|k: int| 0 <= k < i ==> is_zero_s::<C>(#[trigger] p[k].1),
        {
            let (_, c) = self.0.entry(i);
            if !c.is_zero() {
                assert(!is_zero_s::<C>(p[i as int].1));
                return false;
            }
        }
        true
    }

    /// Whether the monomial one has coefficient one and every other
    /// coefficient is recognisably zero; a polynomial with no entry counts as
    /// one (and as zero).
    pub fn is_one(&self) -> (r: bool)
        ensures
            r == poly_is_one::<C>(self@),
    {
        let ghost p = self@;
        let n = self.0.len();
        for i in 0..n
            invariant
                p == self@,
                n == p.len(),
                forall|k: int|
                    0 <= k < i ==> if (#[trigger] p[k]).0.len() == 0 {
                        is_one_s::<C>(p[k].1)
                    } else {
                        is_zero_s::<C>(p[k].1)
                    },
        {
            let (t, c) = self.0.entry(i);
            if t.len() != 0 && !c.is_zero() {
                assert(p[i as int].0.len() != 0);
                return false;
            }
            if t.len() == 0 && !c.is_one() {
                assert(p[i as int].0.len() == 0);
                return false;
            }
        }
        true
    }

    /// The largest degree of `sym` among monomials whose coefficient is not
    /// recognisably zero.
    pub fn degree(&self, sym: &Arc<Symbol>) -> (r: Natural)
        ensures
            r@ == degree_s::<C>(self@, sym@),
    {
        let ghost p = self@;
        let mut deg = Natural::zero();
        let n = self.0.len();
        for i in 0..n
            invariant
                p == self@,
                n == p.len(),
                deg@ == degree_s::<C>(p.subrange(0, i as int), sym@),
        {
            let (t, c) = self.0.entry(i);
            proof {
                lemma_prefix_step(p, i as int);
            }
            if !c.is_zero() {
                deg = deg.max(t.degree(sym));
            }
        }
        proof {
            assert(p.subrange(0, p.len() as int) =~= p);
        }
        deg
    }

    /// The largest total degree among monomials whose coefficient is not
    /// recognisably zero.
    pub fn total_degree(&self) -> (r: Natural)
        ensures
            r@ == total_degree_s::<C>(self@),
    {
        let ghost p = self@;
        let mut deg = Natural::zero();
        let n = self.0.len();
        for i in 0..n
            invariant
                p == self@,
                n == p.len(),
                deg@ == total_degree_s::<C>(p.subrange(0, i as int)),
        {
            let (t, c) = self.0.entry(i);
            proof {
                lemma_prefix_step(p, i as int);
            }
            if !c.is_zero() {
                deg = deg.max(t.total_degree());
            }
        }
        proof {
            assert(p.subrange(0, p.len() as int) =~= p);
        }
        deg
    }
}

impl<C: Coefficient> Polynomial<C> {
    /// A copy of the polynomial.
    pub fn duplicate(&self) -> (r: Polynomial<C>)
        ensures
            r@ == self@,
    {
        let ghost p = self@;
        let mut m: SortedMap<Term, Expr<C>> = SortedMap::new();
        let n = self.0.len();
        for i in 0..n
            invariant
                p == self@,
                n == p.len(),
                crate::sorted_map::sorted_keys::<Term, SExpr<C::V>>(p),
                m@ == p.subrange(0, i as int),
        {
            let (t, c) = self.0.entry(i);
            proof {
                lemma_append_sorted_entries::<C>(p, i as int);
            }
            m.insert(t.duplicate(), c.duplicate());
        }
        proof {
            assert(p.subrange(0, p.len() as int) =~= p);
        }
        Polynomial(m)
    }

    /// The sum: for every entry of `self` and then of `rhs`, a monomial
    /// already present gets the simplified sum of the coefficients, a new
    /// one its coefficient flattened.
    pub fn add(&self, rhs: &Polynomial<C>) -> (r: Polynomial<C>)
        ensures
            r@ == poly_add_s::<C>(self@, rhs@),
    {
        let ghost e = self@ + rhs@;
        let mut m: SortedMap<Term, Expr<C>> = SortedMap::new();
        let n1 = self.0.len();
        for i in 0..n1
            invariant
                e == self@ + rhs@,
                n1 == self@.len(),
                m@ == add_into::<C>(Seq::empty(), e.subrange(0, i as int)),
        {
            let (t, b) = self.0.entry(i);
            proof {
                lemma_prefix_step(e, i as int);
            }
            let v = match m.get(t) {
                Some(a) => a.add(b),
                None => b.flatten(),
            };
            m.insert(t.duplicate(), v);
        }
        let n2 = rhs.0.len();
        for j in 0..n2
            invariant
                e == self@ + rhs@,
                n1 == self@.len(),
                n2 == rhs@.len(),
                m@ == add_into::<C>(Seq::empty(), e.subrange(0, n1 + j)),
        {
            let (t, b) = rhs.0.entry(j);
            proof {
                lemma_prefix_step(e, n1 + j);
            }
            let v = match m.get(t) {
                Some(a) => a.add(b),
                None => b.flatten(),
            };
            m.insert(t.duplicate(), v);
        }
        proof {
            assert(e.subrange(0, e.len() as int) =~= e);
        }
        Polynomial(m)
    }

    /// The difference: for every entry of `rhs`, a monomial of the result
    /// gets the simplified difference, a new one the negated flattened
    /// coefficient.
    pub fn sub(&self, rhs: &Polynomial<C>) -> (r: Polynomial<C>)
        ensures
            r@ == poly_sub_s::<C>(self@, rhs@),
    {
        let ghost q = rhs@;
        let mut m = self.duplicate();
        let n = rhs.0.len();
        for j in 0..n
            invariant
                q == rhs@,
                n == q.len(),
                m@ == sub_into::<C>(self@, q.subrange(0, j as int)),
        {
            let (t, b) = rhs.0.entry(j);
            proof {
                lemma_prefix_step(q, j as int);
            }
            let v = match m.0.get(t) {
                Some(a) => a.sub(b),
                None => b.flatten().neg(),
            };
            m.0.insert(t.duplicate(), v);
        }
        proof {
            assert(q.subrange(0, q.len() as int) =~= q);
        }
        m
    }

    /// The product: every pair of entries multiplied, the products of equal
    /// monomials added.
    pub fn mul(&self, rhs: &Polynomial<C>) -> (r: Polynomial<C>)
        ensures
            r@ == poly_mul_s::<C>(self@, rhs@),
    {
        let ghost xs = self@;
        let ghost ys = rhs@;
        let mut m: SortedMap<Term, Expr<C>> = SortedMap::new();
        let n1 = self.0.len();
        let n2 = rhs.0.len();
        for i in 0..n1
            invariant
                xs == self@,
                ys == rhs@,
                n1 == xs.len(),
                n2 == ys.len(),
                m@ == mul_into::<C>(Seq::empty(), xs.subrange(0, i as int), ys),
        {
            let (x1, x2) = self.0.entry(i);
            proof {
                lemma_prefix_step(xs, i as int);
            }
            let ghost before = m@;
            for j in 0..n2
                invariant
                    xs == self@,
                    ys == rhs@,
                    n2 == ys.len(),
                    0 <= i < xs.len(),
                    xs[i as int] == (x1@, x2@),
                    m@ == mul_row::<C>(before, xs[i as int], ys.subrange(0, j as int)),
            {
                let (y1, y2) = rhs.0.entry(j);
                proof {
                    lemma_prefix_step(ys, j as int);
                }
                let term = x1.mul(y1);
                let b = x2.mul(y2);
                let v = match m.get(&term) {
                    Some(a) => a.add(&b),
                    None => b,
                };
                m.insert(term, v);
            }
            proof {
                assert(ys.subrange(0, ys.len() as int) =~= ys);
            }
        }
        proof {
            assert(xs.subrange(0, xs.len() as int) =~= xs);
        }
        Polynomial(m)
    }

    /// The leading coefficient in `sym`: over the monomials of highest
    /// degree in `sym`, the coefficient times the rest of the monomial,
    /// summed.
    pub fn leading_coef(&self, sym: &Arc<Symbol>) -> (r: Expr<C>)
        ensures
            r@ == leading_coef_s::<C>(self@, sym@),
    {
        let ghost p = self@;
        let mut a: Expr<C> = Expr::zero();
        let deg = self.degree(sym);
        let n = self.0.len();
        for i in 0..n
            invariant
                p == self@,
                n == p.len(),
                deg@ == degree_s::<C>(p, sym@),
                a@ == lead_fold::<C>(p.subrange(0, i as int), sym@, deg@),
        {
            let (t, c) = self.0.entry(i);
            proof {
                lemma_prefix_step(p, i as int);
            }
            if t.degree(sym).same(&deg) {
                let mut rest = t.duplicate();
                rest.remove(sym);
                let m = c.mul(&Expr::from_term(&rest));
                a = a.add(&m);
            }
        }
        proof {
            assert(p.subrange(0, p.len() as int) =~= p);
        }
        a
    }

    /// The polynomial seen as one in `symbol` alone: every other symbol,
    /// raised to its degree, moves into the coefficient, and the
    /// coefficients of entries whose monomials come out equal are added.
    pub fn regard_as(&self, symbol: &Arc<Symbol>) -> (r: Polynomial<C>)
        ensures
            r@ == regard_as_s::<C>(self@, symbol@),
    {
        let ghost p = self@;
        let mut m: SortedMap<Term, Expr<C>> = SortedMap::new();
        let n = self.0.len();
        for i in 0..n
            invariant
                p == self@,
                n == p.len(),
                m@ == regard_as_s::<C>(p.subrange(0, i as int), symbol@),
        {
            let (term, coef) = self.0.entry(i);
            proof {
                lemma_prefix_step(p, i as int);
            }
            let ghost tv = term@;
            let mut new_term = Term::empty();
            match term.0.get(symbol) {
                Some(d) => {
                    new_term.insert(share(symbol), d.duplicate());
                    proof {
                        crate::sorted_map::lemma_slot::<Arc<Symbol>, nat>(Seq::empty(), symbol@);
                        assert(new_term@ =~= regard_term(tv, symbol@));
                    }
                },
                None => {
                    assert(new_term@ =~= regard_term(tv, symbol@));
                },
            }
            let mut new_coef = coef.duplicate();
            let k = term.len();
            for j in 0..k
                invariant
                    tv == term@,
                    k == tv.len(),
                    new_coef@ == regard_coef::<C>(coef@, tv.subrange(0, j as int), symbol@),
            {
                let (sym, deg) = term.0.entry(j);
                proof {
                    lemma_prefix_step(tv, j as int);
                }
                if !sym.same(symbol) {
                    let pw: Expr<C> = Expr::Pow(
                        Box::new(Expr::Symbol(share(sym))),
                        Box::new(Expr::Const(C::from_natural(deg))),
                    );
                    proof {
                        reveal_with_fuel(crate::expr::expr_view, 2);
                        assert(pw@ == power_of::<C>(tv[j as int].0, tv[j as int].1));
                    }
                    new_coef = new_coef.mul(&pw);
                }
            }
            proof {
                assert(tv.subrange(0, tv.len() as int) =~= tv);
            }
            let v = match m.get(&new_term) {
                Some(a) => a.add(&new_coef),
                None => new_coef,
            };
            m.insert(new_term, v);
        }
        proof {
            assert(p.subrange(0, p.len() as int) =~= p);
        }
        Polynomial(m)
    }

    /// The derivative in `symbol`: monomials without `symbol` drop out, every
    /// other entry gets its coefficient times the degree of `symbol` and that
    /// degree lowered by one (coefficients of monomials that come out equal
    /// are added).
    pub fn diff(&self, symbol: &Arc<Symbol>) -> (r: Polynomial<C>)
        requires
            no_zero_degree(self@, symbol@),
        ensures
            r@ == diff_s::<C>(self@, symbol@),
    {
        let ghost p = self@;
        let mut m: SortedMap<Term, Expr<C>> = SortedMap::new();
        let n = self.0.len();
        for i in 0..n
            invariant
                p == self@,
                n == p.len(),
                no_zero_degree(p, symbol@),
                m@ == diff_s::<C>(p.subrange(0, i as int), symbol@),
        {
            let (term, coef) = self.0.entry(i);
            proof {
                lemma_prefix_step(p, i as int);
            }
            if term.0.get(symbol).is_some() {
                let ghost tv = term@;
                let ghost dt = diff_term(tv, symbol@);
                let mut new_term = Term::empty();
                let mut new_coef = coef.duplicate();
                let k = term.len();
                proof {
                    assert forall|a: int, b: int| 0 <= a < b < dt.len() implies
                        crate::names::chars_lt(#[trigger] dt[a].0, #[trigger] dt[b].0) by {
                        assert(dt[a].0 == tv[a].0 && dt[b].0 == tv[b].0);
                    }
                }
                for j in 0..k
                    invariant
                        tv == term@,
                        dt == diff_term(tv, symbol@),
                        k == tv.len(),
                        tv == p[i as int].0,
                        0 <= i < p.len(),
                        no_zero_degree(p, symbol@),
                        crate::sorted_map::sorted_keys::<Arc<Symbol>, nat>(dt),
                        new_term@ == dt.subrange(0, j as int),
                        new_coef@ == diff_coef::<C>(coef@, tv.subrange(0, j as int), symbol@),
                {
                    let (sym, deg) = term.0.entry(j);
                    proof {
                        lemma_prefix_step(tv, j as int);
                        crate::term::lemma_append_sorted(dt, j as int);
                    }
                    if sym.same(symbol) {
                        proof {
                            assert(p[i as int].0[j as int].0 == symbol@);
                        }
                        new_coef = new_coef.mul(&Expr::Const(C::from_natural(deg)));
                        new_term.insert(share(sym), deg.minus(&Natural::one()));
                    } else {
                        new_term.insert(share(sym), deg.duplicate());
                    }
                }
                proof {
                    assert(tv.subrange(0, tv.len() as int) =~= tv);
                    assert(dt.subrange(0, dt.len() as int) =~= dt);
                }
                let v = match m.get(&new_term) {
                    Some(a) => a.add(&new_coef),
                    None => new_coef,
                };
                m.insert(new_term, v);
            }
        }
        proof {
            assert(p.subrange(0, p.len() as int) =~= p);
        }
        Polynomial(m)
    }
}

impl<C: Coefficient> Polynomial<C> {
    /// `sym` to the power `n`, with coefficient one.
    fn sym_power_poly(sym: &Arc<Symbol>, n: &Natural) -> (r: Polynomial<C>)
        ensures
            r@ == term_poly::<C>(sym_power(sym@, n@)),
    {
        Self::from_term(&Term::from_symbol(sym).pow(n))
    }

    /// Quotient and remainder of `self` by `rhs`, both seen as polynomials
    /// in `sym`: while the remainder's degree in `sym` is at least the
    /// divisor's, its leading term over the divisor's goes to the quotient
    /// and that times the divisor comes off the remainder. The steps go on
    /// until the degree falls below the divisor's, so the division must
    /// come to an end (it does not where the divisor is a constant).
    pub fn divmod(&self, rhs: &Polynomial<C>, sym: &Arc<Symbol>) -> (r: (Polynomial<C>, Polynomial<C>))
        requires
            divmod_ends::<C>(self@, rhs@, sym@),
        ensures
            (r.0@, r.1@) == divmod_s::<C>(self@, rhs@, sym@),
    {
        let ghost fuel = choose|fuel: nat| (#[trigger] division_start::<C>(self@, rhs@, sym@, fuel)) is Some;
        let ghost mut left: nat = fuel;
        let mut q = Self::zero();
        let mut r = self.regard_as(sym);
        let g = rhs.regard_as(sym);
        let l = g.degree(sym);
        assert(division_run::<C>(q@, r@, g@, l@, sym@, left) == division_start::<C>(self@, rhs@, sym@, fuel))
            by {
            reveal(division_start);
        }
        loop
            invariant
                g@ == regard_as_s::<C>(rhs@, sym@),
                l@ == degree_s::<C>(g@, sym@),
                division_start::<C>(self@, rhs@, sym@, fuel) is Some,
                divmod_s::<C>(self@, rhs@, sym@) == division_start::<C>(self@, rhs@, sym@, fuel)->0,
                division_run::<C>(q@, r@, g@, l@, sym@, left) == division_start::<C>(
                    self@,
                    rhs@,
                    sym@,
                    fuel,
                ),
            decreases left,
        {
            let d = r.degree(sym);
            if d.less(&l) {
                return (q, r);
            }
            let lc = r.leading_coef(sym).div(&g.leading_coef(sym));
            let a = Self::new_with_coef(lc).mul(&Self::sym_power_poly(sym, &d.minus(&l)));
            let r2 = r.sub(&a.mul(&g));
            let q2 = q.add(&a);
            q = q2;
            r = r2;
            proof {
                left = (left - 1) as nat;
            }
        }
    }

    /// As `divmod`, for at most `steps` steps: `None` where the remainder's
    /// degree is still not below the divisor's after them.
    pub fn divmod_within(&self, rhs: &Polynomial<C>, sym: &Arc<Symbol>, steps: u64) -> (r: Option<
        (Polynomial<C>, Polynomial<C>),
    >)
        ensures
            r is Some <==> division_start::<C>(self@, rhs@, sym@, steps as nat) is Some,
            r matches Some((q, m)) ==> division_start::<C>(self@, rhs@, sym@, steps as nat) == Some((q@, m@)),
            r matches Some((q, m)) ==> divmod_ends::<C>(self@, rhs@, sym@) && (q@, m@) == divmod_s::<C>(
                self@,
                rhs@,
                sym@,
            ),
    {
        let mut q = Self::zero();
        let mut r = self.regard_as(sym);
        let g = rhs.regard_as(sym);
        let l = g.degree(sym);
        let mut left: u64 = steps;
        assert(division_run::<C>(q@, r@, g@, l@, sym@, left as nat) == division_start::<C>(
            self@,
            rhs@,
            sym@,
            steps as nat,
        )) by {
            reveal(division_start);
        }
        loop
            invariant
                g@ == regard_as_s::<C>(rhs@, sym@),
                l@ == degree_s::<C>(g@, sym@),
                division_run::<C>(q@, r@, g@, l@, sym@, left as nat) == division_start::<C>(
                    self@,
                    rhs@,
                    sym@,
                    steps as nat,
                ),
            decreases left,
        {
            let d = r.degree(sym);
            if d.less(&l) {
                proof {
                    reveal(division_start);
                    let f = choose|fuel: nat| (#[trigger] division_start::<C>(self@, rhs@, sym@, fuel)) is Some;
                    assert(division_start::<C>(self@, rhs@, sym@, steps as nat) is Some);
                    lemma_division_run::<C>(
                        zero_poly::<C>(),
                        regard_as_s::<C>(self@, sym@),
                        g@,
                        l@,
                        sym@,
                        steps as nat,
                        f,
                    );
                }
                return Some((q, r));
            }
            if left == 0 {
                return None;
            }
            let lc = r.leading_coef(sym).div(&g.leading_coef(sym));
            let a = Self::new_with_coef(lc).mul(&Self::sym_power_poly(sym, &d.minus(&l)));
            let r2 = r.sub(&a.mul(&g));
            let q2 = q.add(&a);
            q = q2;
            r = r2;
            left = left - 1;
        }
    }

    /// Pseudo-quotient, pseudo-remainder and the number of steps of `self`
    /// by `rhs`, both seen as polynomials in `sym`: each step multiplies
    /// remainder and quotient by the divisor's leading coefficient before
    /// moving the remainder's leading term. The pseudo-division must come to
    /// an end.
    pub fn pseudo_divmod(&self, rhs: &Polynomial<C>, sym: &Arc<Symbol>) -> (r: (
        Polynomial<C>,
        Polynomial<C>,
        Natural,
    ))
        requires
            pseudo_divmod_ends::<C>(self@, rhs@, sym@),
        ensures
            (r.0@, r.1@, r.2@) == pseudo_divmod_s::<C>(self@, rhs@, sym@),
    {
        let ghost fuel = choose|fuel: nat| (#[trigger] pseudo_start::<C>(self@, rhs@, sym@, fuel)) is Some;
        let ghost mut left: nat = fuel;
        let mut q = Self::zero();
        let mut r = self.regard_as(sym);
        let mut s = Natural::zero();
        let g = rhs.regard_as(sym);
        let l = g.degree(sym);
        let a = Self::new_with_coef(g.leading_coef(sym));
        assert(pseudo_run::<C>(q@, r@, s@, g@, a@, l@, sym@, left) == pseudo_start::<C>(self@, rhs@, sym@, fuel))
            by {
            reveal(pseudo_start);
        }
        loop
            invariant
                g@ == regard_as_s::<C>(rhs@, sym@),
                l@ == degree_s::<C>(g@, sym@),
                a@ == constant_poly(leading_coef_s::<C>(g@, sym@)),
                pseudo_start::<C>(self@, rhs@, sym@, fuel) is Some,
                pseudo_divmod_s::<C>(self@, rhs@, sym@) == pseudo_start::<C>(self@, rhs@, sym@, fuel)->0,
                pseudo_run::<C>(q@, r@, s@, g@, a@, l@, sym@, left) == pseudo_start::<C>(
                    self@,
                    rhs@,
                    sym@,
                    fuel,
                ),
            decreases left,
        {
            let d = r.degree(sym);
            if d.less(&l) {
                return (q, r, s);
            }
            let b = Self::new_with_coef(r.leading_coef(sym)).mul(
                &Self::sym_power_poly(sym, &d.minus(&l)),
            );
            let r2 = r.mul(&a).sub(&b.mul(&g));
            let q2 = q.mul(&a).add(&b);
            q = q2;
            r = r2;
            s = s.plus(&Natural::one());
            proof {
                left = (left - 1) as nat;
            }
        }
    }

    /// As `pseudo_divmod`, for at most `steps` steps: `None` where the
    /// remainder's degree is still not below the divisor's after them.
    pub fn pseudo_divmod_within(&self, rhs: &Polynomial<C>, sym: &Arc<Symbol>, steps: u64) -> (r:
        Option<(Polynomial<C>, Polynomial<C>, Natural)>)
        ensures
            r is Some <==> pseudo_start::<C>(self@, rhs@, sym@, steps as nat) is Some,
            r matches Some((q, m, n)) ==> pseudo_start::<C>(self@, rhs@, sym@, steps as nat) == Some(
                (q@, m@, n@),
            ),
            r matches Some((q, m, n)) ==> pseudo_divmod_ends::<C>(self@, rhs@, sym@) && (q@, m@, n@)
                == pseudo_divmod_s::<C>(self@, rhs@, sym@),
    {
        let mut q = Self::zero();
        let mut r = self.regard_as(sym);
        let mut s = Natural::zero();
        let g = rhs.regard_as(sym);
        let l = g.degree(sym);
        let a = Self::new_with_coef(g.leading_coef(sym));
        let mut left: u64 = steps;
        assert(pseudo_run::<C>(q@, r@, s@, g@, a@, l@, sym@, left as nat) == pseudo_start::<C>(
            self@,
            rhs@,
            sym@,
            steps as nat,
        )) by {
            reveal(pseudo_start);
        }
        loop
            invariant
                g@ == regard_as_s::<C>(rhs@, sym@),
                l@ == degree_s::<C>(g@, sym@),
                a@ == constant_poly(leading_coef_s::<C>(g@, sym@)),
                pseudo_run::<C>(q@, r@, s@, g@, a@, l@, sym@, left as nat) == pseudo_start::<C>(
                    self@,
                    rhs@,
                    sym@,
                    steps as nat,
                ),
            decreases left,
        {
            let d = r.degree(sym);
            if d.less(&l) {
                proof {
                    reveal(pseudo_start);
                    let f = choose|fuel: nat| (#[trigger] pseudo_start::<C>(self@, rhs@, sym@, fuel)) is Some;
                    assert(pseudo_start::<C>(self@, rhs@, sym@, steps as nat) is Some);
                    lemma_pseudo_run::<C>(
                        zero_poly::<C>(),
                        regard_as_s::<C>(self@, sym@),
                        0,
                        g@,
                        a@,
                        l@,
                        sym@,
                        steps as nat,
                        f,
                    );
                }
                return Some((q, r, s));
            }
            if left == 0 {
                return None;
            }
            let b = Self::new_with_coef(r.leading_coef(sym)).mul(
                &Self::sym_power_poly(sym, &d.minus(&l)),
            );
            let r2 = r.mul(&a).sub(&b.mul(&g));
            let q2 = q.mul(&a).add(&b);
            q = q2;
            r = r2;
            s = s.plus(&Natural::one());
            left = left - 1;
        }
    }

    /// The polynomial an expression stands for, read from its flattened
    /// form; `Err` where the expression is not a polynomial (a power whose
    /// base is not a symbol or whose exponent the coefficient type does not
    /// turn into a natural number). The degree is what `to_natural` gives
    /// the exponent, which for a `Rational` that is not an integer is its
    /// decimal digits read as an integer (`x^(1/2)` reads as `x^5`).
    pub fn try_from(value: &Expr<C>) -> (r: Result<Polynomial<C>, ()>)
        ensures
            r is Err <==> poly_of::<C>(value@) is None,
            r matches Ok(p) ==> poly_of::<C>(value@) == Some(p@),
    {
        let f = value.flatten();
        Self::from_flat(&f)
    }

    /// The polynomial an already flattened expression stands for.
    fn from_flat(e: &Expr<C>) -> (r: Result<Polynomial<C>, ()>)
        ensures
            r is Err <==> poly_of_flat::<C>(e@) is None,
            r matches Ok(p) ==> poly_of_flat::<C>(e@) == Some(p@),
        decreases e,
    {
        match e {
            Expr::Const(c) => {
                Ok(Self::new_with_coef(Expr::Const(c.duplicate())))
            },
            Expr::Symbol(s) => {
                Ok(Self::from_term(&Term::from_symbol(s)))
            },
            Expr::Add(t) => {
                Self::from_operands(t, false)
            },
            Expr::Mul(t) => {
                Self::from_operands(t, true)
            },
            Expr::Pow(a, b) => {
                proof {
                    reveal_with_fuel(crate::expr::expr_view, 2);
                }
                match (&**a, &**b) {
                    (Expr::Symbol(s), Expr::Const(c)) => match c.to_natural() {
                        Some(n) => {
                            let mut t = Term::empty();
                            t.insert(share(s), n);
                            proof {
                                crate::sorted_map::lemma_slot::<Arc<Symbol>, nat>(Seq::empty(), s@);
                                assert(t@ =~= seq![(s@, n@)]);
                            }
                            Ok(Self::from_term(&t))
                        },
                        None => Err(()),
                    },
                    _ => Err(()),
                }
            },
        }
    }

    /// The sum (or, where `product`, the product) of the polynomials that
    /// the operands stand for.
    fn from_operands(t: &Vec<Expr<C>>, product: bool) -> (r: Result<Polynomial<C>, ()>)
        ensures
            ({
                let ps = operand_polys::<C>(crate::expr::views(t@));
                let s = if product {
                    product_polys::<C>(ps)
                } else {
                    sum_polys::<C>(ps)
                };
                &&& r is Err <==> s is None
                &&& r matches Ok(p) ==> s == Some(p@)
            }),
        decreases t,
    {
        let ghost ps = operand_polys::<C>(crate::expr::views(t@));
        let mut a = if product {
            Self::one()
        } else {
            Self::zero()
        };
        for i in 0..t.len()
            invariant
                ps == operand_polys::<C>(crate::expr::views(t@)),
                ps.len() == t@.len(),
                product ==> product_polys::<C>(ps.subrange(0, i as int)) == Some(a@),
                !product ==> sum_polys::<C>(ps.subrange(0, i as int)) == Some(a@),
        {
            proof {
                lemma_prefix_step(ps, i as int);
            }
            match Self::from_flat(&t[i]) {
                Ok(b) => {
                    a = if product {
                        a.mul(&b)
                    } else {
                        a.add(&b)
                    };
                },
                Err(_) => {
                    proof {
                        assert(ps[i as int] is None);
                        if product {
                            lemma_product_polys_none::<C>(ps, i as int);
                        } else {
                            lemma_sum_polys_none::<C>(ps, i as int);
                        }
                    }
                    return Err(());
                },
            }
        }
        proof {
            assert(ps.subrange(0, ps.len() as int) =~= ps);
        }
        Ok(a)
    }
}

/// A sum with a missing part is missing.
proof fn lemma_sum_polys_none<C: Coefficient>(ps: Seq<Option<PolyV<C::V>>>, i: int)
    requires
        0 <= i < ps.len(),
        ps[i] is None,
    ensures
        sum_polys::<C>(ps) is None,
    decreases ps.len(),
{
    if i < ps.len() - 1 {
        lemma_sum_polys_none::<C>(ps.subrange(0, ps.len() - 1), i);
    }
}

/// A product with a missing factor is missing.
proof fn lemma_product_polys_none<C: Coefficient>(ps: Seq<Option<PolyV<C::V>>>, i: int)
    requires
        0 <= i < ps.len(),
        ps[i] is None,
    ensures
        product_polys::<C>(ps) is None,
    decreases ps.len(),
{
    if i < ps.len() - 1 {
        lemma_product_polys_none::<C>(ps.subrange(0, ps.len() - 1), i);
    }
}

impl Term {
    /// The printed form of the monomial: that of its expression over the
    /// coefficient type `C`.
    pub fn to_text<C: Coefficient>(&self) -> (r: String)
        ensures
            r@ == crate::display::expr_text::<C>(term_expr::<C>(self@)),
    {
        Expr::<C>::from_term(self).to_text()
    }
}

impl<C: Coefficient> Polynomial<C> {
    /// The printed form: that of the polynomial's expression.
    pub fn to_text(&self) -> (r: String)
        ensures
            r@ == crate::display::expr_text::<C>(poly_expr::<C>(self@)),
    {
        Expr::from_polynomial(self).to_text()
    }
}

/// Inserting the next entry of a sorted sequence of entries into its prefix
/// appends it.
proof fn lemma_append_sorted_entries<C: Coefficient>(p: PolyV<C::V>, i: int)
    requires
        crate::sorted_map::sorted_keys::<Term, SExpr<C::V>>(p),
        0 <= i < p.len(),
    ensures
        pinsert(p.subrange(0, i), p[i].0, p[i].1) == p.subrange(0, i + 1),
{
    let q = p.subrange(0, i);
    crate::sorted_map::lemma_slot::<Term, SExpr<C::V>>(q, p[i].0);
    let j = crate::sorted_map::slot::<Term, SExpr<C::V>>(q, p[i].0);
    if j < i {
        assert(crate::term::term_lt(q[j].0, p[i].0));
        crate::term::lemma_term_order(q[j].0, p[i].0, q[j].0);
    }
    assert(j == i);
    assert(q.insert(i, p[i]) =~= p.subrange(0, i + 1));
}

impl<C: Coefficient> Expr<C> {
    /// The symbol as an expression.
    pub fn from_symbol(sym: &Arc<Symbol>) -> (r: Expr<C>)
        ensures
            r@ == SExpr::<C::V>::Symbol(sym@),
    {
        Expr::Symbol(share(sym))
    }

    /// The monomial as an expression: one times each symbol raised to its
    /// degree.
    pub fn from_term(t: &Term) -> (r: Expr<C>)
        ensures
            r@ == term_expr::<C>(t@),
    {
        let ghost tv = t@;
        let mut a: Expr<C> = Expr::one();
        let n = t.len();
        for i in 0..n
            invariant
                tv == t@,
                n == tv.len(),
                a@ == term_expr::<C>(tv.subrange(0, i as int)),
        {
            let (sym, deg) = t.0.entry(i);
            proof {
                lemma_prefix_step(tv, i as int);
            }
            let p: Expr<C> = Expr::Pow(
                Box::new(Expr::Symbol(share(sym))),
                Box::new(Expr::Const(C::from_natural(deg))),
            );
            proof {
                reveal_with_fuel(crate::expr::expr_view, 2);
                assert(p@ == power_of::<C>(tv[i as int].0, tv[i as int].1));
            }
            a = a.mul(&p);
        }
        proof {
            assert(tv.subrange(0, tv.len() as int) =~= tv);
        }
        a
    }

    /// The polynomial as an expression: the sum of each coefficient times
    /// its monomial.
    pub fn from_polynomial(p: &Polynomial<C>) -> (r: Expr<C>)
        ensures
            r@ == poly_expr::<C>(p@),
    {
        let ghost pv = p@;
        let mut a: Expr<C> = Expr::zero();
        let n = p.0.len();
        for i in 0..n
            invariant
                pv == p@,
                n == pv.len(),
                a@ == poly_expr::<C>(pv.subrange(0, i as int)),
        {
            let (t, c) = p.0.entry(i);
            proof {
                lemma_prefix_step(pv, i as int);
            }
            let m = c.mul(&Expr::from_term(t));
            a = a.add(&m);
        }
        proof {
            assert(pv.subrange(0, pv.len() as int) =~= pv);
        }
        a
    }
}

} // verus!
