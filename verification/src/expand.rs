use crate::coef::Coefficient;
use crate::expr::{expr_view, lemma_prefix_step, lemma_views_push, views, Expr, SExpr};
use crate::ops::{mul_s, simplified};
use vstd::prelude::*;

verus! {

broadcast use vstd::std_specs::vec::group_vec_axioms;

/// Every product of an operand of `u` with an operand of `a`, the operands
/// of `u` in the outer order.
pub open spec fn cross<C: Coefficient>(u: Seq<SExpr<C::V>>, a: Seq<SExpr<C::V>>) -> Seq<SExpr<C::V>>
    decreases u.len(),
{
    if u.len() == 0 {
        Seq::empty()
    } else {
        cross::<C>(u.subrange(0, u.len() - 1), a) + Seq::new(a.len(), |k: int| mul_s::<C>(u[u.len() - 1], a[k]))
    }
}

/// Every operand of `a` times `v`.
pub open spec fn scale<C: Coefficient>(a: Seq<SExpr<C::V>>, v: SExpr<C::V>) -> Seq<SExpr<C::V>> {
    Seq::new(a.len(), |k: int| mul_s::<C>(a[k], v))
}

/// The terms of the expanded product of `t`: each factor expanded and
/// simplified, a sum multiplied out against the terms so far, anything else
/// multiplying each of them.
pub open spec fn expand_product<C: Coefficient>(t: Seq<SExpr<C::V>>, n: nat) -> Seq<SExpr<C::V>>
    decreases n, t.len() + 1,
{
    if t.len() == 0 {
        Seq::empty()
    } else {
        let a = expand_product::<C>(t.subrange(0, t.len() - 1), n);
        let v = simplified::<C>(expand_s::<C>(t[t.len() - 1], n));
        match v {
            SExpr::Add(u) => if a.len() == 0 {
                u
            } else {
                cross::<C>(u, a)
            },
            _ => if a.len() == 0 {
                seq![v]
            } else {
                scale::<C>(a, v)
            },
        }
    }
}

/// Each expression of `t` expanded.
pub open spec fn expand_each<C: Coefficient>(t: Seq<SExpr<C::V>>, n: nat) -> Seq<SExpr<C::V>>
    decreases n, 1nat,
{
    Seq::new(t.len(), |i: int| expand_s::<C>(t[i], n))
}

/// The expression simplified, with products of sums multiplied out
/// throughout; `n` bounds the depth of the recursion.
pub open spec fn expand_s<C: Coefficient>(e: SExpr<C::V>, n: nat) -> SExpr<C::V>
    decreases n, 0nat,
{
    let s = simplified::<C>(e);
    if n == 0 {
        s
    } else {
        match s {
            SExpr::Add(t) => simplified::<C>(SExpr::Add(expand_each::<C>(t, (n - 1) as nat))),
            SExpr::Mul(t) => simplified::<C>(SExpr::Add(expand_product::<C>(t, (n - 1) as nat))),
            SExpr::Pow(a, b) => match *b {
                SExpr::Const(c) => simplified::<C>(
                    SExpr::Pow(Box::new(expand_s::<C>(*a, (n - 1) as nat)), Box::new(SExpr::Const(c))),
                ),
                _ => simplified::<C>(
                    SExpr::Pow(
                        Box::new(expand_s::<C>(*a, (n - 1) as nat)),
                        Box::new(expand_s::<C>(*b, (n - 1) as nat)),
                    ),
                ),
            },
            _ => s,
        }
    }
}

/// The factors multiplied together from the left, each product simplified.
pub open spec fn mul_chain<C: Coefficient>(vs: Seq<SExpr<C::V>>) -> SExpr<C::V>
    decreases vs.len(),
{
    if vs.len() <= 1 {
        if vs.len() == 1 {
            vs[0]
        } else {
            SExpr::Const(C::one_v())
        }
    } else {
        mul_s::<C>(mul_chain::<C>(vs.subrange(0, vs.len() - 1)), vs[vs.len() - 1])
    }
}

/// A product none of whose factors expands to a sum expands to one term:
/// the product of all its expanded factors, none of them left out or kept
/// apart.
pub proof fn law_expand_product_without_sums<C: Coefficient>(t: Seq<SExpr<C::V>>, n: nat)
    requires
        t.len() > 0,
        forall|i: int| 0 <= i < t.len() ==> !(simplified::<C>(expand_s::<C>(#[trigger] t[i], n)) is Add),
    ensures
        expand_product::<C>(t, n) == seq![
            mul_chain::<C>(Seq::new(t.len(), |i: int| simplified::<C>(expand_s::<C>(t[i], n)))),
        ],
    decreases t.len(),
{
    let m = t.len() - 1;
    let t0 = t.subrange(0, m);
    let vs = Seq::new(t.len(), |i: int| simplified::<C>(expand_s::<C>(t[i], n)));
    let v = simplified::<C>(expand_s::<C>(t[m], n));
    assert(!(v is Add));
    if t.len() == 1 {
        assert(t0 =~= Seq::<SExpr<C::V>>::empty());
        assert(expand_product::<C>(t0, n).len() == 0);
    } else {
        assert forall|i: int| 0 <= i < t0.len() implies !(simplified::<C>(expand_s::<C>(#[trigger] t0[i], n)) is Add) by {
            assert(t0[i] == t[i]);
        }
        law_expand_product_without_sums::<C>(t0, n);
        let vs0 = Seq::new(t0.len(), |i: int| simplified::<C>(expand_s::<C>(t0[i], n)));
        assert(vs.subrange(0, m) =~= vs0);
        let a = expand_product::<C>(t0, n);
        assert(a == seq![mul_chain::<C>(vs0)]);
        assert(scale::<C>(a, v) =~= seq![mul_s::<C>(mul_chain::<C>(vs0), v)]);
    }
}

/// How many terms an expanded factor contributes: the operands of a sum,
/// or the factor itself.
pub open spec fn term_count<V>(e: SExpr<V>) -> nat {
    match e {
        SExpr::Add(u) => u.len(),
        _ => 1,
    }
}

/// The product of the numbers.
pub open spec fn count_product(ls: Seq<nat>) -> nat
    decreases ls.len(),
{
    if ls.len() == 0 {
        1
    } else {
        count_product(ls.subrange(0, ls.len() - 1)) * ls[ls.len() - 1]
    }
}

proof fn lemma_cross_len<C: Coefficient>(u: Seq<SExpr<C::V>>, a: Seq<SExpr<C::V>>)
    ensures
        cross::<C>(u, a).len() == u.len() * a.len(),
    decreases u.len(),
{
    if u.len() > 0 {
        lemma_cross_len::<C>(u.subrange(0, u.len() - 1), a);
        let x = u.len() as int;
        let y = a.len() as int;
        assert((x - 1) * y + y == x * y) by (nonlinear_arith);
    }
}

proof fn lemma_count_product_positive(ls: Seq<nat>)
    requires
        forall|i: int| 0 <= i < ls.len() ==> #[trigger] ls[i] >= 1,
    ensures
        count_product(ls) >= 1,
    decreases ls.len(),
{
    if ls.len() > 0 {
        let l0 = ls.subrange(0, ls.len() - 1);
        assert forall|i: int| 0 <= i < l0.len() implies #[trigger] l0[i] >= 1 by {
            assert(l0[i] == ls[i]);
        }
        lemma_count_product_positive(l0);
        let p = count_product(l0);
        let q = ls[ls.len() - 1];
        assert(p * q >= 1) by (nonlinear_arith)
            requires
                p >= 1,
                q >= 1,
        ;
    }
}

/// Multiplying out a product gives as many terms as the product of the
/// numbers of terms of its expanded factors, a factor that is not a sum
/// counting once (no expanded factor being an empty sum).
pub proof fn law_expand_product_count<C: Coefficient>(t: Seq<SExpr<C::V>>, n: nat)
    requires
        t.len() > 0,
        forall|i: int| 0 <= i < t.len() ==> term_count(simplified::<C>(expand_s::<C>(#[trigger] t[i], n))) >= 1,
    ensures
        expand_product::<C>(t, n).len() == count_product(
            Seq::new(t.len(), |i: int| term_count(simplified::<C>(expand_s::<C>(t[i], n)))),
        ),
    decreases t.len(),
{
    let m = t.len() - 1;
    let t0 = t.subrange(0, m);
    let cs = Seq::new(t.len(), |i: int| term_count(simplified::<C>(expand_s::<C>(t[i], n))));
    let v = simplified::<C>(expand_s::<C>(t[m], n));
    if t.len() == 1 {
        assert(t0 =~= Seq::<SExpr<C::V>>::empty());
        assert(expand_product::<C>(t0, n).len() == 0);
        assert(cs.subrange(0, 0) =~= Seq::<nat>::empty());
        assert(count_product(cs.subrange(0, 0)) == 1);
        assert(count_product(cs) == count_product(cs.subrange(0, 0)) * cs[0]);
        assert(count_product(cs) == cs[0]);
        assert(cs[0] == term_count(simplified::<C>(expand_s::<C>(t[0], n))));
    } else {
        assert forall|i: int| 0 <= i < t0.len() implies term_count(
            simplified::<C>(expand_s::<C>(#[trigger] t0[i], n)),
        ) >= 1 by {
            assert(t0[i] == t[i]);
        }
        law_expand_product_count::<C>(t0, n);
        lemma_count_step::<C>(t, n);
    }
}

proof fn lemma_count_step<C: Coefficient>(t: Seq<SExpr<C::V>>, n: nat)
    requires
        t.len() > 1,
        forall|i: int| 0 <= i < t.len() ==> term_count(simplified::<C>(expand_s::<C>(#[trigger] t[i], n))) >= 1,
        expand_product::<C>(t.subrange(0, t.len() - 1), n).len() == count_product(
            Seq::new(
                t.subrange(0, t.len() - 1).len(),
                |i: int| term_count(simplified::<C>(expand_s::<C>(t.subrange(0, t.len() - 1)[i], n))),
            ),
        ),
    ensures
        expand_product::<C>(t, n).len() == count_product(
            Seq::new(t.len(), |i: int| term_count(simplified::<C>(expand_s::<C>(t[i], n)))),
        ),
{
    let m = t.len() - 1;
    let cs = Seq::new(t.len(), |i: int| term_count(simplified::<C>(expand_s::<C>(t[i], n))));
    let t0 = t.subrange(0, m);
    let cs0 = Seq::new(t0.len(), |i: int| term_count(simplified::<C>(expand_s::<C>(t0[i], n))));
    let v = simplified::<C>(expand_s::<C>(t[m], n));
    assert forall|i: int| 0 <= i < m implies #[trigger] cs0[i] == cs[i] by {
        assert(t0[i] == t[i]);
    }
    assert(cs.subrange(0, m) =~= cs0);
    assert forall|i: int| 0 <= i < cs0.len() implies #[trigger] cs0[i] >= 1 by {
        assert(cs0[i] == cs[i]);
    }
    lemma_count_product_positive(cs0);
    let a = expand_product::<C>(t.subrange(0, m), n);
    lemma_extend_len::<C>(a, v);
    let p0 = count_product(cs0);
    let c = cs[m];
    assert(count_product(cs) == p0 * c);
    assert(expand_product::<C>(t, n).len() == a.len() * term_count(v));
}

proof fn lemma_extend_len<C: Coefficient>(a: Seq<SExpr<C::V>>, v: SExpr<C::V>)
    requires
        a.len() >= 1,
    ensures
        v matches SExpr::Add(u) ==> cross::<C>(u, a).len() == a.len() * term_count(v),
        !(v is Add) ==> scale::<C>(a, v).len() == a.len() * term_count(v),
{
    match v {
        SExpr::Add(u) => {
            lemma_cross_len::<C>(u, a);
            let x = u.len() as int;
            let y = a.len() as int;
            assert(x * y == y * x) by (nonlinear_arith);
            assert(term_count(v) == u.len());
            assert(cross::<C>(u, a).len() == a.len() * u.len());
        },
        _ => {
            assert(scale::<C>(a, v).len() == a.len());
            assert(term_count(v) == 1);
            assert(a.len() * 1 == a.len());
        },
    }
}

proof fn lemma_cross_at<C: Coefficient>(u: Seq<SExpr<C::V>>, a: Seq<SExpr<C::V>>, j: int, i: int)
    requires
        0 <= j < u.len(),
        0 <= i < a.len(),
    ensures
        j * a.len() + i < cross::<C>(u, a).len(),
        cross::<C>(u, a)[j * a.len() + i] == mul_s::<C>(u[j], a[i]),
    decreases u.len(),
{
    lemma_cross_len::<C>(u, a);
    let m = u.len() - 1;
    let u0 = u.subrange(0, m);
    let l = a.len() as int;
    lemma_cross_len::<C>(u0, a);
    assert(j * l + i < u.len() * l) by (nonlinear_arith)
        requires
            0 <= j < u.len(),
            0 <= i < l,
    ;
    if j < m {
        lemma_cross_at::<C>(u0, a, j, i);
        assert(u0[j] == u[j]);
    } else {
        assert(m * l == u0.len() * l);
    }
}

/// One more factor, related to the product before it: where it does not
/// expand to a sum, it multiplies each term so far, in place; where it
/// expands to the sum of `u`, each operand of `u` multiplies each term so
/// far, giving `u.len()` blocks of them.
pub proof fn law_expand_product_step<C: Coefficient>(t: Seq<SExpr<C::V>>, n: nat)
    requires
        t.len() >= 2,
        expand_product::<C>(t.subrange(0, t.len() - 1), n).len() > 0,
    ensures
        ({
            let a = expand_product::<C>(t.subrange(0, t.len() - 1), n);
            let r = expand_product::<C>(t, n);
            let v = simplified::<C>(expand_s::<C>(t[t.len() - 1], n));
            &&& !(v is Add) ==> r.len() == a.len() && forall|i: int|
                0 <= i < a.len() ==> #[trigger] r[i] == mul_s::<C>(a[i], v)
            &&& v matches SExpr::Add(u) ==> r.len() == u.len() * a.len() && forall|j: int, i: int|
                0 <= j < u.len() && 0 <= i < a.len() ==> #[trigger] r[j * a.len() + i] == mul_s::<C>(u[j], a[i])
        }),
{
    let a = expand_product::<C>(t.subrange(0, t.len() - 1), n);
    let v = simplified::<C>(expand_s::<C>(t[t.len() - 1], n));
    match v {
        SExpr::Add(u) => {
            lemma_cross_len::<C>(u, a);
            assert forall|j: int, i: int| 0 <= j < u.len() && 0 <= i < a.len() implies #[trigger] cross::<C>(u, a)[j
                * a.len() + i] == mul_s::<C>(u[j], a[i]) by {
                lemma_cross_at::<C>(u, a, j, i);
            }
        },
        _ => {},
    }
}

impl<C: Coefficient> Expr<C> {
    /// Multiplies out products of sums, after simplifying, and simplifies
    /// the result. The recursion is bounded by `usize::MAX` levels, more
    /// than any expression that fits in memory can need.
    pub fn expand(&self) -> (r: Expr<C>)
        ensures
            r@ == expand_s::<C>(self@, usize::MAX as nat),
    {
        self.expand_within(usize::MAX)
    }

    #[verifier::loop_isolation(false)]
    fn expand_within(&self, n: usize) -> (r: Expr<C>)
        ensures
            r@ == expand_s::<C>(self@, n as nat),
        decreases n, 0nat,
    {
        let s = self.simplify();
        if n == 0 {
            return s;
        }
        let ghost sv = s@;
        match s {
            Expr::Add(t) => {
                let ghost tv = views(t@);
                let mut a: Vec<Expr<C>> = Vec::new();
                for i in 0..t.len()
                    invariant
                        tv == views(t@),
                        a@.len() == i,
                        forall|k: int| 0 <= k < i ==> (#[trigger] a@[k])@ == expand_s::<C>(tv[k], (n - 1) as nat),
                {
                    a.push(t[i].expand_within(n - 1));
                }
                proof {
                    assert(views(a@) =~= expand_each::<C>(tv, (n - 1) as nat));
                }
                Expr::Add(a).simplify()
            },
            Expr::Mul(t) => {
                let a = expand_product_exec(&t, n - 1);
                Expr::Add(a).simplify()
            },
            Expr::Pow(a, b) => {
                let ea = a.expand_within(n - 1);
                match *b {
                    Expr::Const(c) => {
                        let p = Expr::Pow(Box::new(ea), Box::new(Expr::Const(c)));
                        proof {
                            reveal_with_fuel(expr_view, 2);
                        }
                        p.simplify()
                    },
                    other => {
                        let eb = other.expand_within(n - 1);
                        Expr::Pow(Box::new(ea), Box::new(eb)).simplify()
                    },
                }
            },
            other => other,
        }
    }
}


/// The terms of the expanded product of `t`.
#[verifier::loop_isolation(false)]
fn expand_product_exec<C: Coefficient>(t: &Vec<Expr<C>>, n: usize) -> (r: Vec<Expr<C>>)
    ensures
        views(r@) == expand_product::<C>(views(t@), n as nat),
    decreases n, t@.len() + 1,
{
    let ghost tv = views(t@);
    let mut a: Vec<Expr<C>> = Vec::new();
    for i in 0..t.len()
        invariant
            tv == views(t@),
            views(a@) == expand_product::<C>(tv.subrange(0, i as int), n as nat),
    {
        proof {
            lemma_prefix_step(tv, i as int);
        }
        let v = t[i].expand_within(n).simplify();
        let ghost av = views(a@);
        match v {
            Expr::Add(u) => {
                if a.len() == 0 {
                    a = u;
                } else {
                    a = cross_exec(&u, &a);
                }
            },
            other => {
                if a.len() == 0 {
                    proof {
                        lemma_views_push(a@, other);
                    }
                    a.push(other);
                } else {
                    a = scale_exec(&a, &other);
                }
            },
        }
    }
    proof {
        assert(tv.subrange(0, t@.len() as int) =~= tv);
    }
    a
}

/// Every product of an operand of `u` with an operand of `a`.
fn cross_exec<C: Coefficient>(u: &Vec<Expr<C>>, a: &Vec<Expr<C>>) -> (r: Vec<Expr<C>>)
    ensures
        views(r@) == cross::<C>(views(u@), views(a@)),
{
    let ghost uv = views(u@);
    let ghost av = views(a@);
    let mut b: Vec<Expr<C>> = Vec::new();
    for i in 0..u.len()
        invariant
            uv == views(u@),
            av == views(a@),
            views(b@) == cross::<C>(uv.subrange(0, i as int), av),
    {
        proof {
            lemma_prefix_step(uv, i as int);
        }
        let ghost before = views(b@);
        for j in 0..a.len()
            invariant
                uv == views(u@),
                av == views(a@),
                i < u@.len(),
                views(b@) == before + Seq::new(j as nat, |k: int| mul_s::<C>(uv[i as int], av[k])),
        {
            let x = u[i].mul(&a[j]);
            proof {
                lemma_views_push(b@, x);
                assert(before + Seq::new((j + 1) as nat, |k: int| mul_s::<C>(uv[i as int], av[k])) =~= (before
                    + Seq::new(j as nat, |k: int| mul_s::<C>(uv[i as int], av[k]))).push(x@));
            }
            b.push(x);
        }
        proof {
            assert(uv.subrange(0, i + 1)[i as int] == uv[i as int]);
            assert(Seq::new(a@.len() as nat, |k: int| mul_s::<C>(uv[i as int], av[k])) =~= Seq::new(
                av.len(),
                |k: int| mul_s::<C>(uv.subrange(0, i + 1)[uv.subrange(0, i + 1).len() - 1], av[k]),
            ));
        }
    }
    proof {
        assert(uv.subrange(0, u@.len() as int) =~= uv);
    }
    b
}

/// Every operand of `a` times `v`.
fn scale_exec<C: Coefficient>(a: &Vec<Expr<C>>, v: &Expr<C>) -> (r: Vec<Expr<C>>)
    ensures
        views(r@) == scale::<C>(views(a@), v@),
{
    let mut b: Vec<Expr<C>> = Vec::new();
    for k in 0..a.len()
        invariant
            b@.len() == k,
            forall|j: int| 0 <= j < k ==> (#[trigger] b@[j])@ == mul_s::<C>(a@[j]@, v@),
    {
        b.push(a[k].mul(v));
    }
    assert(views(b@) =~= scale::<C>(views(a@), v@));
    b
}

} // verus!
