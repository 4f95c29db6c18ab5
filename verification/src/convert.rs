use crate::expr::{views, Expr, SExpr};
use crate::natural::Natural;
use crate::rational::Rational;
use crate::symbol::share;
use vstd::prelude::*;

verus! {

broadcast use vstd::std_specs::vec::group_vec_axioms;

/// Constants that can be made from constants of type `A`.
pub trait ConvertFrom<A: View>: View + Sized {
    /// The constant made from `a`.
    spec fn convert_v(a: A::V) -> Self::V;

    fn convert_from(a: &A) -> (r: Self)
        ensures
            r@ == Self::convert_v(a@),
    ;
}

impl ConvertFrom<Natural> for Rational {
    open spec fn convert_v(a: nat) -> (int, int) {
        (a as int, 1)
    }

    fn convert_from(a: &Natural) -> (r: Rational) {
        Rational::from_natural_number(a)
    }
}

impl ConvertFrom<Rational> for Rational {
    open spec fn convert_v(a: (int, int)) -> (int, int) {
        a
    }

    fn convert_from(a: &Rational) -> (r: Rational) {
        crate::coef::Scalar::duplicate(a)
    }
}

/// The same expression with every constant converted.
pub open spec fn convert_expr<A: View, B: ConvertFrom<A>>(e: SExpr<A::V>) -> SExpr<B::V>
    decreases e,
{
    match e {
        SExpr::Const(c) => SExpr::Const(B::convert_v(c)),
        SExpr::Symbol(s) => SExpr::Symbol(s),
        SExpr::Add(t) => SExpr::Add(convert_all::<A, B>(t)),
        SExpr::Mul(t) => SExpr::Mul(convert_all::<A, B>(t)),
        SExpr::Pow(a, b) => SExpr::Pow(
            Box::new(convert_expr::<A, B>(*a)),
            Box::new(convert_expr::<A, B>(*b)),
        ),
    }
}

/// Each expression with every constant converted.
pub open spec fn convert_all<A: View, B: ConvertFrom<A>>(t: Seq<SExpr<A::V>>) -> Seq<SExpr<B::V>>
    decreases t,
{
    Seq::new(
        t.len(),
        |i: int|
            if 0 <= i < t.len() {
                convert_expr::<A, B>(t[i])
            } else {
                SExpr::Add(Seq::empty())
            },
    )
}

impl<B: View> Expr<B> {
    /// The expression `e` with every constant converted to this coefficient
    /// type.
    pub fn convert<A: View>(e: &Expr<A>) -> (r: Expr<B>) where B: ConvertFrom<A>
        ensures
            r@ == convert_expr::<A, B>(e@),
        decreases e,
    {
        match e {
            Expr::Const(c) => Expr::Const(B::convert_from(c)),
            Expr::Symbol(s) => Expr::Symbol(share(s)),
            Expr::Add(t) => Expr::Add(Self::convert_vec(t)),
            Expr::Mul(t) => Expr::Mul(Self::convert_vec(t)),
            Expr::Pow(a, b) => {
                let x = Self::convert(a);
                let y = Self::convert(b);
                proof {
                    reveal_with_fuel(crate::expr::expr_view, 2);
                }
                Expr::Pow(Box::new(x), Box::new(y))
            },
        }
    }

    fn convert_vec<A: View>(t: &Vec<Expr<A>>) -> (r: Vec<Expr<B>>) where B: ConvertFrom<A>
        ensures
            views(r@) == convert_all::<A, B>(views(t@)),
        decreases t,
    {
        let mut v: Vec<Expr<B>> = Vec::new();
        for i in 0..t.len()
            invariant
                v.len() == i,
                forall|j: int| 0 <= j < i ==> (#[trigger] v@[j])@ == convert_expr::<A, B>(t@[j]@),
        {
            v.push(Self::convert(&t[i]));
        }
        assert(views(v@) =~= convert_all::<A, B>(views(t@)));
        v
    }
}

} // verus!
