use crate::depth::add_depth;
use crate::expr::{Expr, SExpr};
use vstd::prelude::*;

verus! {

/// The arithmetic that matrix entries and expression coefficients provide.
///
/// Each operation is stated over the value's view; views are canonical, so
/// two values are equal exactly when their views are.
pub trait Scalar: View + Sized {
    spec fn zero_v() -> Self::V;

    spec fn one_v() -> Self::V;

    spec fn add_v(a: Self::V, b: Self::V) -> Self::V;

    spec fn sub_v(a: Self::V, b: Self::V) -> Self::V;

    spec fn mul_v(a: Self::V, b: Self::V) -> Self::V;

    spec fn neg_v(a: Self::V) -> Self::V;

    fn zero() -> (r: Self)
        ensures
            r@ == Self::zero_v(),
    ;

    fn one() -> (r: Self)
        ensures
            r@ == Self::one_v(),
    ;

    fn is_zero(&self) -> (r: bool)
        ensures
            r == (self@ == Self::zero_v()),
    ;

    fn is_one(&self) -> (r: bool)
        ensures
            r == (self@ == Self::one_v()),
    ;

    fn same(&self, other: &Self) -> (r: bool)
        ensures
            r == (self@ == other@),
    ;

    fn duplicate(&self) -> (r: Self)
        ensures
            r@ == self@,
    ;

    fn plus(&self, other: &Self) -> (r: Self)
        ensures
            r@ == Self::add_v(self@, other@),
    ;

    fn minus(&self, other: &Self) -> (r: Self)
        ensures
            r@ == Self::sub_v(self@, other@),
    ;

    fn times(&self, other: &Self) -> (r: Self)
        ensures
            r@ == Self::mul_v(self@, other@),
    ;

    fn negated(&self) -> (r: Self)
        ensures
            r@ == Self::neg_v(self@),
    ;

    /// The value's printed form.
    spec fn text_v(a: Self::V) -> Seq<char>;

    fn text(&self) -> (r: String)
        ensures
            r@ == Self::text_v(self@),
    ;
}

/// What expressions need of their constant coefficients beyond arithmetic.
pub trait Coefficient: Scalar {
    /// What raising a constant to an expression gives.
    spec fn pow_v(base: Self::V, exp: SExpr<Self::V>) -> SExpr<Self::V>;

    /// The constant standing for a natural number.
    spec fn from_nat_v(n: nat) -> Self::V;

    /// The natural number a constant converts to, where it converts.
    spec fn to_nat_v(a: Self::V) -> Option<nat>;

    /// Raising a constant nests sums no deeper than the exponent does.
    proof fn lemma_pow_shape(base: Self::V, exp: SExpr<Self::V>)
        ensures
            add_depth(Self::pow_v(base, exp)) <= add_depth(exp),
    ;

    fn pow_expr(&self, exp: Expr<Self>) -> (r: Expr<Self>)
        ensures
            r@ == Self::pow_v(self@, exp@),
    ;

    fn from_natural(n: &crate::natural::Natural) -> (r: Self)
        ensures
            r@ == Self::from_nat_v(n@),
    ;

    /// The constant a numeral stands for, where it stands for one.
    spec fn from_text_v(s: Seq<char>) -> Option<Self::V>;

    fn from_text(s: &str) -> (r: Option<Self>)
        ensures
            r is Some <==> Self::from_text_v(s@) is Some,
            r matches Some(c) ==> Some(c@) == Self::from_text_v(s@),
    ;

    fn to_natural(&self) -> (r: Option<crate::natural::Natural>)
        ensures
            r is Some <==> Self::to_nat_v(self@) is Some,
            r matches Some(n) ==> Some(n@) == Self::to_nat_v(self@),
    ;
}

} // verus!
