use crate::coef::Scalar;
use crate::expr::{expr_view, lemma_prefix_step, views, Expr, SExpr};
use vstd::prelude::*;

verus! {

broadcast use vstd::std_specs::vec::group_vec_axioms;

/// Whether a text starts with a minus sign.
pub open spec fn starts_with_minus(s: Seq<char>) -> bool {
    s.len() > 0 && s[0] == '-'
}

/// The printed form of an expression: constants as the coefficient prints
/// them, symbols by name, sums with `+` before every operand after the first
/// that does not start with `-`, products as `*`-separated factors with
/// sums in parentheses and the first constant `-1` shown as a leading `-`,
/// and powers as `base^exponent` with sums and products in parentheses.
pub open spec fn expr_text<C: Scalar>(e: SExpr<C::V>) -> Seq<char>
    decreases e, 0nat,
{
    match e {
        SExpr::Const(c) => C::text_v(c),
        SExpr::Symbol(s) => s,
        SExpr::Add(t) => sum_text::<C>(t),
        SExpr::Mul(t) => {
            let (neg, parts) = product_parts::<C>(t);
            (if neg {
                seq!['-']
            } else {
                Seq::empty()
            }) + join_star(parts)
        },
        SExpr::Pow(a, b) => wrapped_text::<C>(*a) + seq!['^'] + wrapped_text::<C>(*b),
    }
}

/// An operand of a power: sums and products in parentheses.
pub open spec fn wrapped_text<C: Scalar>(e: SExpr<C::V>) -> Seq<char>
    decreases e, 1nat,
{
    match e {
        SExpr::Add(_) => seq!['('] + expr_text::<C>(e) + seq![')'],
        SExpr::Mul(_) => seq!['('] + expr_text::<C>(e) + seq![')'],
        _ => expr_text::<C>(e),
    }
}

/// The operands of a sum, printed one after the other.
pub open spec fn sum_text<C: Scalar>(t: Seq<SExpr<C::V>>) -> Seq<char>
    decreases t, 0nat,
{
    if t.len() == 0 {
        Seq::empty()
    } else {
        let s = expr_text::<C>(t[t.len() - 1]);
        sum_text::<C>(t.subrange(0, t.len() - 1)) + (if t.len() > 1 && !starts_with_minus(s) {
            seq!['+']
        } else {
            Seq::empty()
        }) + s
    }
}

/// The printed factors of a product and whether a `-1` factor was taken as
/// the sign.
pub open spec fn product_parts<C: Scalar>(t: Seq<SExpr<C::V>>) -> (bool, Seq<Seq<char>>)
    decreases t, 0nat,
{
    if t.len() == 0 {
        (false, Seq::empty())
    } else {
        let (neg, parts) = product_parts::<C>(t.subrange(0, t.len() - 1));
        let v = t[t.len() - 1];
        let a = expr_text::<C>(v);
        match v {
            SExpr::Const(_) => if !neg && a == seq!['-', '1'] {
                (true, parts)
            } else {
                (neg, parts.push(a))
            },
            SExpr::Add(_) => (neg, parts.push(seq!['('] + a + seq![')'])),
            _ => (neg, parts.push(a)),
        }
    }
}

/// The texts joined with `*`.
pub open spec fn join_star(parts: Seq<Seq<char>>) -> Seq<char>
    decreases parts.len(),
{
    if parts.len() == 0 {
        Seq::empty()
    } else {
        join_star(parts.subrange(0, parts.len() - 1)) + (if parts.len() > 1 {
            seq!['*']
        } else {
            Seq::empty()
        }) + parts[parts.len() - 1]
    }
}

/// Whether the string starts with `-`.
pub fn has_minus_sign(s: &String) -> (r: bool)
    ensures
        r == starts_with_minus(s@),
{
    let t = s.as_str();
    if t.unicode_len() == 0 {
        false
    } else {
        t.get_char(0) == '-'
    }
}

/// Whether the string is `-1`.
fn is_minus_one_text(s: &String) -> (r: bool)
    ensures
        r == (s@ == seq!['-', '1']),
{
    let t = s.as_str();
    if t.unicode_len() != 2 {
        false
    } else {
        let r = t.get_char(0) == '-' && t.get_char(1) == '1';
        assert(r ==> t@ =~= seq!['-', '1']);
        r
    }
}

impl<C: Scalar> Expr<C> {
    /// The printed form, as `expr_text` describes it.
    #[verifier::loop_isolation(false)]
    pub fn to_text(&self) -> (r: String)
        ensures
            r@ == expr_text::<C>(self@),
        decreases self, 0nat,
    {
        match self {
            Expr::Const(c) => c.text(),
            Expr::Symbol(s) => s.name().clone(),
            Expr::Add(t) => sum_to_text(t),
            Expr::Mul(t) => product_to_text(t),
            Expr::Pow(a, b) => {
                let mut out = a.wrapped_text();
                out.append("^");
                proof {
                    reveal_strlit("^");
                }
                let tb = b.wrapped_text();
                out.append(tb.as_str());
                out
            },
        }
    }

    /// The printed form with sums and products in parentheses.
    fn wrapped_text(&self) -> (r: String)
        ensures
            r@ == wrapped_text::<C>(self@),
        decreases self, 1nat,
    {
        match self {
            Expr::Add(_) | Expr::Mul(_) => {
                let mut out = String::new();
                out.append("(");
                let t = self.to_text();
                out.append(t.as_str());
                out.append(")");
                proof {
                    reveal_strlit("(");
                    reveal_strlit(")");
                }
                out
            },
            _ => self.to_text(),
        }
    }
}

/// The printed operands of a sum.
#[verifier::loop_isolation(false)]
fn sum_to_text<C: Scalar>(t: &Vec<Expr<C>>) -> (r: String)
    ensures
        r@ == sum_text::<C>(views(t@)),
    decreases t, 0nat,
{
        let ghost tv = views(t@);
        let mut out = String::new();
        for i in 0..t.len()
            invariant
                tv == views(t@),
                out@ == sum_text::<C>(tv.subrange(0, i as int)),
        {
            proof {
                lemma_prefix_step(tv, i as int);
            }
            let s = t[i].to_text();
            if i > 0 && !has_minus_sign(&s) {
                out.append("+");
                proof {
                    reveal_strlit("+");
                }
            }
            out.append(s.as_str());
        }
        proof {
            assert(tv.subrange(0, t@.len() as int) =~= tv);
        }
        out
    }

/// The printed factors of a product, joined.
#[verifier::loop_isolation(false)]
fn product_to_text<C: Scalar>(t: &Vec<Expr<C>>) -> (r: String)
    ensures
        r@ == expr_text::<C>(SExpr::Mul(views(t@))),
    decreases t, 0nat,
{
        let ghost tv = views(t@);
        let mut neg = false;
        let mut parts: Vec<String> = Vec::new();
        for i in 0..t.len()
            invariant
                tv == views(t@),
                (neg, Seq::new(parts@.len(), |k: int| parts@[k]@)) == product_parts::<C>(
                    tv.subrange(0, i as int),
                ),
        {
            proof {
                lemma_prefix_step(tv, i as int);
            }
            let ghost before = Seq::new(parts@.len(), |k: int| parts@[k]@);
            let a = t[i].to_text();
            match &t[i] {
                Expr::Const(_) => {
                    if !neg && is_minus_one_text(&a) {
                        neg = true;
                    } else {
                        parts.push(a);
                        proof {
                            assert(Seq::new(parts@.len(), |k: int| parts@[k]@) =~= before.push(a@));
                        }
                    }
                },
                Expr::Add(_) => {
                    let mut w = String::new();
                    w.append("(");
                    w.append(a.as_str());
                    w.append(")");
                    proof {
                        reveal_strlit("(");
                        reveal_strlit(")");
                        assert(w@ =~= seq!['('] + a@ + seq![')']);
                    }
                    parts.push(w);
                    proof {
                        assert(Seq::new(parts@.len(), |k: int| parts@[k]@) =~= before.push(
                            seq!['('] + a@ + seq![')'],
                        ));
                    }
                },
                _ => {
                    parts.push(a);
                    proof {
                        assert(Seq::new(parts@.len(), |k: int| parts@[k]@) =~= before.push(a@));
                    }
                },
            }
        }
        proof {
            assert(tv.subrange(0, t@.len() as int) =~= tv);
        }
        let mut out = String::new();
        if neg {
            out.append("-");
            proof {
                reveal_strlit("-");
            }
        }
        let ghost pre = out@;
        let ghost ps = Seq::new(parts@.len(), |k: int| parts@[k]@);
        for j in 0..parts.len()
            invariant
                ps == Seq::new(parts@.len(), |k: int| parts@[k]@),
                out@ == pre + join_star(ps.subrange(0, j as int)),
        {
            proof {
                lemma_prefix_step(ps, j as int);
            }
            let ghost b = out@;
            if j > 0 {
                out.append("*");
                proof {
                    reveal_strlit("*");
                }
            }
            out.append(parts[j].as_str());
            proof {
                assert(out@ =~= pre + join_star(ps.subrange(0, j + 1)));
            }
        }
        proof {
            assert(ps.subrange(0, parts@.len() as int) =~= ps);
        }
        out
    }

} // verus!
