use crate::coef::{Coefficient, Scalar};
use crate::collect::simplify_s;
use crate::depth::add_depth;
use crate::expr::{expr_view, lemma_prefix_step, lemma_views_push, views, Expr, SExpr};
use vstd::prelude::*;

verus! {

broadcast use vstd::std_specs::vec::group_vec_axioms;

/// `simplify` with enough room for every sum it meets.
pub open spec fn simplified<C: Coefficient>(e: SExpr<C::V>) -> SExpr<C::V> {
    simplify_s::<C>(e, add_depth(e))
}

/// The constant minus one.
pub open spec fn minus_one<C: Scalar>() -> C::V {
    C::neg_v(C::one_v())
}

/// The simplified sum of `a` and `b`.
pub open spec fn add_s<C: Coefficient>(a: SExpr<C::V>, b: SExpr<C::V>) -> SExpr<C::V> {
    simplified::<C>(SExpr::Add(seq![a, b]))
}

/// The simplified product of `a` and `b`.
pub open spec fn mul_s<C: Coefficient>(a: SExpr<C::V>, b: SExpr<C::V>) -> SExpr<C::V> {
    simplified::<C>(SExpr::Mul(seq![a, b]))
}

/// The simplified negation of `a`: minus one times `a`.
pub open spec fn neg_s<C: Coefficient>(a: SExpr<C::V>) -> SExpr<C::V> {
    simplified::<C>(SExpr::Mul(seq![SExpr::Const(minus_one::<C>()), a]))
}

/// The simplified difference: `a` plus the negation of `b`.
pub open spec fn sub_s<C: Coefficient>(a: SExpr<C::V>, b: SExpr<C::V>) -> SExpr<C::V> {
    simplified::<C>(SExpr::Add(seq![a, neg_s::<C>(b)]))
}

/// The simplified quotient: `a` times `b` to the power minus one.
pub open spec fn div_s<C: Coefficient>(a: SExpr<C::V>, b: SExpr<C::V>) -> SExpr<C::V> {
    simplified::<C>(
        SExpr::Mul(seq![a, SExpr::Pow(Box::new(b), Box::new(SExpr::Const(minus_one::<C>())))]),
    )
}

/// The simplified power.
pub open spec fn pow_s<C: Coefficient>(a: SExpr<C::V>, b: SExpr<C::V>) -> SExpr<C::V> {
    simplified::<C>(SExpr::Pow(Box::new(a), Box::new(b)))
}

/// A two-operand vector.
fn pair<C: Scalar>(a: Expr<C>, b: Expr<C>) -> (r: Vec<Expr<C>>)
    ensures
        views(r@) == seq![a@, b@],
{
    let mut v: Vec<Expr<C>> = Vec::new();
    v.push(a);
    v.push(b);
    assert(views(v@) =~= seq![a@, b@]);
    v
}

impl<C: Coefficient> Expr<C> {
    /// `self + rhs`, simplified.
    pub fn add(&self, rhs: &Expr<C>) -> (r: Expr<C>)
        ensures
            r@ == add_s::<C>(self@, rhs@),
    {
        Expr::Add(pair(self.duplicate(), rhs.duplicate())).simplify()
    }

    /// `self * rhs`, simplified.
    pub fn mul(&self, rhs: &Expr<C>) -> (r: Expr<C>)
        ensures
            r@ == mul_s::<C>(self@, rhs@),
    {
        Expr::Mul(pair(self.duplicate(), rhs.duplicate())).simplify()
    }

    /// `-self`: minus one times the expression, simplified.
    pub fn neg(&self) -> (r: Expr<C>)
        ensures
            r@ == neg_s::<C>(self@),
    {
        let m = C::one().negated();
        Expr::Mul(pair(Expr::Const(m), self.duplicate())).simplify()
    }

    /// `self - rhs`: `self` plus the negation of `rhs`, simplified.
    pub fn sub(&self, rhs: &Expr<C>) -> (r: Expr<C>)
        ensures
            r@ == sub_s::<C>(self@, rhs@),
    {
        Expr::Add(pair(self.duplicate(), rhs.neg())).simplify()
    }

    /// `self / rhs`: `self` times `rhs` to the power minus one, simplified.
    pub fn div(&self, rhs: &Expr<C>) -> (r: Expr<C>)
        ensures
            r@ == div_s::<C>(self@, rhs@),
    {
        let m = C::one().negated();
        let p = Expr::Pow(Box::new(rhs.duplicate()), Box::new(Expr::Const(m)));
        proof {
            reveal_with_fuel(expr_view, 2);
        }
        Expr::Mul(pair(self.duplicate(), p)).simplify()
    }

    /// `self ^ rhs`, simplified.
    pub fn pow(&self, rhs: &Expr<C>) -> (r: Expr<C>)
        ensures
            r@ == pow_s::<C>(self@, rhs@),
    {
        Expr::Pow(Box::new(self.duplicate()), Box::new(rhs.duplicate())).simplify()
    }
}

} // verus!
