use crate::coef::{Coefficient, Scalar};
use crate::expand::expand_s;
use crate::expr::{lemma_prefix_step, lemma_views_push, views, Expr, SExpr};
use crate::names::{chars_lt, lemma_chars_order, names_less};
use crate::ops::{add_s, div_s, mul_s, pow_s, simplified, sub_s};
use crate::polynomial::{
    degree_s, diff_s, division_start, leading_coef_s, no_zero_degree, poly_expr, poly_of, PolyV,
    pseudo_start, total_degree_s, Polynomial,
};
use crate::sorted_map::{get_s, insert_s, lemma_insert_next, sorted_keys, MapKey, SortedMap};
use crate::symbol::{new_shared, Symbol};
use crate::syntax::{parse, parse_line, parse_sum, lex, tokenize, Ast, AstV, BinOp, Statement, StatementV};
use std::sync::Arc;
use vstd::prelude::*;

verus! {

broadcast use vstd::std_specs::vec::group_vec_axioms;

impl MapKey for String {
    open spec fn key_lt(a: Seq<char>, b: Seq<char>) -> bool {
        chars_lt(a, b)
    }

    proof fn lemma_key_order(a: Seq<char>, b: Seq<char>, c: Seq<char>) {
        lemma_chars_order(a, b, c);
    }

    fn key_less(&self, other: &String) -> (r: bool) {
        names_less(self, other)
    }

    fn key_same(&self, other: &String) -> (r: bool) {
        *self == *other
    }

    fn copy_key(&self) -> (r: String) {
        self.clone()
    }
}

/// The model of the variables: names with their values, in name order.
pub type VarsV<V> = Seq<(Seq<char>, SExpr<V>)>;

/// Why a line was refused.
#[derive(Debug)]
pub enum InterpretError {
    /// The line is not a statement of the language.
    Syntax,
    /// The coefficient type refused a numeral.
    InvalidNumber(String),
    /// A function got fewer arguments than it reads.
    TooFewArguments,
    /// An argument that should be a polynomial is not one.
    NotPolynomial,
    /// An argument that should be a symbol is not one.
    MustProvideSymbol,
    /// `coef` wants a symbol and a constant.
    MustProvideSymbolAndDegree,
    /// `coef` wants a natural-number degree.
    DegreeNotNatural,
    /// No function has that name.
    UnknownFunction(String),
    /// The function is named but not provided.
    Unsupported(String),
    /// A division did not end within the most steps a `u64` counts.
    NoProgress,
}

pub enum ErrorV {
    Syntax,
    InvalidNumber(Seq<char>),
    TooFewArguments,
    NotPolynomial,
    MustProvideSymbol,
    MustProvideSymbolAndDegree,
    DegreeNotNatural,
    UnknownFunction(Seq<char>),
    Unsupported(Seq<char>),
    NoProgress,
}

impl View for InterpretError {
    type V = ErrorV;

    open spec fn view(&self) -> ErrorV {
        match *self {
            InterpretError::Syntax => ErrorV::Syntax,
            InterpretError::InvalidNumber(s) => ErrorV::InvalidNumber(s@),
            InterpretError::TooFewArguments => ErrorV::TooFewArguments,
            InterpretError::NotPolynomial => ErrorV::NotPolynomial,
            InterpretError::MustProvideSymbol => ErrorV::MustProvideSymbol,
            InterpretError::MustProvideSymbolAndDegree => ErrorV::MustProvideSymbolAndDegree,
            InterpretError::DegreeNotNatural => ErrorV::DegreeNotNatural,
            InterpretError::UnknownFunction(s) => ErrorV::UnknownFunction(s@),
            InterpretError::Unsupported(s) => ErrorV::Unsupported(s@),
            InterpretError::NoProgress => ErrorV::NoProgress,
        }
    }
}

/// What evaluating an expression comes to: a value, a refusal, or a state
/// the language treats as a fault (where the program stops).
pub enum EvalV<V> {
    Value(SExpr<V>),
    Fail(ErrorV),
    Fault,
}

/// The operator applied to two values, simplified; a power simplifies its
/// operands first.
pub open spec fn apply_s<C: Coefficient>(op: BinOp, a: SExpr<C::V>, b: SExpr<C::V>) -> SExpr<C::V> {
    match op {
        BinOp::Add => add_s::<C>(a, b),
        BinOp::Sub => sub_s::<C>(a, b),
        BinOp::Mul => mul_s::<C>(a, b),
        BinOp::Div => div_s::<C>(a, b),
        BinOp::Pow => pow_s::<C>(simplified::<C>(a), simplified::<C>(b)),
    }
}

/// The outcome of an operator whose operands came to `o1` and `o2`: the
/// left refusal first, a fault always.
pub open spec fn combine_s<C: Coefficient>(op: BinOp, o1: EvalV<C::V>, o2: EvalV<C::V>) -> EvalV<C::V> {
    match o1 {
        EvalV::Value(a) => match o2 {
            EvalV::Value(b) => EvalV::Value(apply_s::<C>(op, a, b)),
            _ => o2,
        },
        EvalV::Fail(e) => match o2 {
            EvalV::Fault => EvalV::Fault,
            _ => EvalV::Fail(e),
        },
        EvalV::Fault => EvalV::Fault,
    }
}

/// The polynomial argument `i`, or why there is none.
pub open spec fn poly_arg_s<C: Coefficient>(args: Seq<SExpr<C::V>>, i: int) -> Result<
    crate::polynomial::PolyV<C::V>,
    ErrorV,
> {
    if args.len() <= i {
        Err(ErrorV::TooFewArguments)
    } else {
        match poly_of::<C>(args[i]) {
            Some(p) => Ok(p),
            None => Err(ErrorV::NotPolynomial),
        }
    }
}

/// The symbol argument `i`, or why there is none.
pub open spec fn symbol_arg_s<V>(args: Seq<SExpr<V>>, i: int) -> Result<Seq<char>, ErrorV> {
    if args.len() <= i {
        Err(ErrorV::TooFewArguments)
    } else {
        match args[i] {
            SExpr::Symbol(s) => Ok(s),
            _ => Err(ErrorV::MustProvideSymbol),
        }
    }
}

/// What the division functions of the language give for the polynomials
/// `a` and `b` in `sym`; a division that has not ended within the most
/// steps a `u64` counts fails.
pub open spec fn division_call_s<C: Coefficient>(
    name: Seq<char>,
    a: PolyV<C::V>,
    b: PolyV<C::V>,
    sym: Seq<char>,
) -> EvalV<C::V> {
    if name == "ploy_div"@ {
        match division_start::<C>(a, b, sym, u64::MAX as nat) {
            Some((q, _)) => EvalV::Value(poly_expr::<C>(q)),
            None => EvalV::Fail(ErrorV::NoProgress),
        }
    } else if name == "pseudo_div"@ || name == "pseudo_mod"@ {
        match pseudo_start::<C>(a, b, sym, u64::MAX as nat) {
            Some((q, r, _)) => EvalV::Value(poly_expr::<C>(if name == "pseudo_div"@ { q } else { r })),
            None => EvalV::Fail(ErrorV::NoProgress),
        }
    } else {
        EvalV::Fault
    }
}

/// A function of the language applied to evaluated arguments.
#[verifier::opaque]
pub open spec fn call_s<C: Coefficient>(name: Seq<char>, args: Seq<SExpr<C::V>>) -> EvalV<C::V> {
    if name == "ploy_div"@ || name == "poly_mod"@ || name == "pseudo_div"@ || name == "pseudo_mod"@ {
        match poly_arg_s::<C>(args, 0) {
            Err(e) => EvalV::Fail(e),
            Ok(a) => match poly_arg_s::<C>(args, 1) {
                Err(e) => EvalV::Fail(e),
                Ok(b) => match symbol_arg_s(args, 2) {
                    Err(e) => EvalV::Fail(e),
                    Ok(sym) => division_call_s::<C>(name, a, b, sym),
                },
            },
        }
    } else if name == "diff"@ {
        match poly_arg_s::<C>(args, 0) {
            Err(e) => EvalV::Fail(e),
            Ok(a) => match symbol_arg_s(args, 1) {
                Err(e) => EvalV::Fail(e),
                Ok(sym) => if no_zero_degree(a, sym) {
                    EvalV::Value(poly_expr::<C>(diff_s::<C>(a, sym)))
                } else {
                    EvalV::Fault
                },
            },
        }
    } else if name == "resultant"@ || name == "gcd"@ {
        match poly_arg_s::<C>(args, 0) {
            Err(e) => EvalV::Fail(e),
            Ok(_) => match poly_arg_s::<C>(args, 1) {
                Err(e) => EvalV::Fail(e),
                Ok(_) => match symbol_arg_s(args, 2) {
                    Err(e) => EvalV::Fail(e),
                    Ok(_) => EvalV::Fail(ErrorV::Unsupported(name)),
                },
            },
        }
    } else if name == "total_degree"@ {
        match poly_arg_s::<C>(args, 0) {
            Err(e) => EvalV::Fail(e),
            Ok(a) => EvalV::Value(SExpr::Const(C::from_nat_v(total_degree_s::<C>(a)))),
        }
    } else if name == "degree"@ || name == "leading_coef"@ {
        match poly_arg_s::<C>(args, 0) {
            Err(e) => EvalV::Fail(e),
            Ok(a) => match symbol_arg_s(args, 1) {
                Err(e) => EvalV::Fail(e),
                Ok(sym) => if name == "degree"@ {
                    EvalV::Value(SExpr::Const(C::from_nat_v(degree_s::<C>(a, sym))))
                } else {
                    EvalV::Value(leading_coef_s::<C>(a, sym))
                },
            },
        }
    } else if name == "coef"@ {
        match poly_arg_s::<C>(args, 0) {
            Err(e) => EvalV::Fail(e),
            Ok(_) => if args.len() < 3 {
                EvalV::Fail(ErrorV::TooFewArguments)
            } else {
                match (args[1], args[2]) {
                    (SExpr::Symbol(_), SExpr::Const(d)) => match C::to_nat_v(d) {
                        Some(_) => EvalV::Fail(ErrorV::Unsupported(name)),
                        None => EvalV::Fail(ErrorV::DegreeNotNatural),
                    },
                    _ => EvalV::Fail(ErrorV::MustProvideSymbolAndDegree),
                }
            },
        }
    } else if name == "expand"@ {
        if args.len() < 1 {
            EvalV::Fail(ErrorV::TooFewArguments)
        } else {
            EvalV::Value(expand_s::<C>(args[0], usize::MAX as nat))
        }
    } else {
        EvalV::Fail(ErrorV::UnknownFunction(name))
    }
}

/// Whether `s..e` is a range of characters of `cs` (the parser only makes
/// such ranges; evaluation refuses any other as a syntax error).
pub open spec fn in_range(s: usize, e: usize, cs: Seq<char>) -> bool {
    s <= e && e <= cs.len()
}

/// Evaluates an expression of the line `cs` against the variables: a
/// numeral becomes a constant, a name its variable's value (an unknown name
/// becomes a symbol of that name and is recorded as a variable), a call
/// evaluates its arguments in order (stopping at the first that does not
/// come to a value) and applies its function, and an operator evaluates
/// both sides, left first. Gives the outcome and the variables after.
pub open spec fn eval_s<C: Coefficient>(a: AstV, cs: Seq<char>, vars: VarsV<C::V>) -> (
    EvalV<C::V>,
    VarsV<C::V>,
)
    decreases a,
{
    match a {
        AstV::Number(s, e) => if !in_range(s, e, cs) {
            (EvalV::Fail(ErrorV::Syntax), vars)
        } else {
            match C::from_text_v(cs.subrange(s as int, e as int)) {
                Some(c) => (EvalV::Value(SExpr::Const(c)), vars),
                None => (EvalV::Fail(ErrorV::InvalidNumber(cs.subrange(s as int, e as int))), vars),
            }
        },
        AstV::Symbol(s, e) => if !in_range(s, e, cs) {
            (EvalV::Fail(ErrorV::Syntax), vars)
        } else {
            let name = cs.subrange(s as int, e as int);
            match get_s::<String, SExpr<C::V>>(vars, name) {
                Some(v) => (EvalV::Value(v), vars),
                None => (
                    EvalV::Value(SExpr::Symbol(name)),
                    insert_s::<String, SExpr<C::V>>(vars, name, SExpr::Symbol(name)),
                ),
            }
        },
        AstV::Call(s, e, args) => if !in_range(s, e, cs) {
            (EvalV::Fail(ErrorV::Syntax), vars)
        } else {
            let (r, v2) = eval_args_s::<C>(args, cs, vars);
            match r {
                Ok(vals) => (call_s::<C>(cs.subrange(s as int, e as int), vals), v2),
                Err(o) => (o, v2),
            }
        },
        AstV::Binary(op, l, r) => {
            let (o1, v1) = eval_s::<C>(*l, cs, vars);
            match o1 {
                EvalV::Fault => (EvalV::Fault, v1),
                _ => {
                    let (o2, v2) = eval_s::<C>(*r, cs, v1);
                    (combine_s::<C>(op, o1, o2), v2)
                },
            }
        },
    }
}

/// Evaluates arguments in order: their values, or the outcome of the first
/// that does not come to a value; and the variables after.
pub open spec fn eval_args_s<C: Coefficient>(args: Seq<AstV>, cs: Seq<char>, vars: VarsV<C::V>) -> (
    Result<Seq<SExpr<C::V>>, EvalV<C::V>>,
    VarsV<C::V>,
)
    decreases args,
{
    if args.len() == 0 {
        (Ok(Seq::empty()), vars)
    } else {
        let (r0, v0) = eval_args_s::<C>(args.subrange(0, args.len() - 1), cs, vars);
        match r0 {
            Err(o) => (Err(o), v0),
            Ok(vals) => {
                let (o, v1) = eval_s::<C>(args[args.len() - 1], cs, v0);
                match o {
                    EvalV::Value(x) => (Ok(vals.push(x)), v1),
                    _ => (Err(o), v1),
                }
            },
        }
    }
}

/// What running a line comes to.
pub enum RunV<V> {
    /// An expression's simplified value, to be shown.
    Shown(SExpr<V>),
    /// Nothing to show.
    Quiet,
    Fail(ErrorV),
    Fault,
}

/// Runs a line: an expression is evaluated and its simplified value shown;
/// an assignment evaluates its right side and binds the name to it; the
/// variables keep what evaluation recorded even where it was refused.
pub open spec fn run_s<C: Coefficient>(vars: VarsV<C::V>, cs: Seq<char>) -> (RunV<C::V>, VarsV<C::V>) {
    match parse_line(cs) {
        None => (RunV::Fail(ErrorV::Syntax), vars),
        Some(StatementV::Empty) => (RunV::Quiet, vars),
        Some(StatementV::Eval(x)) => {
            let (o, v) = eval_s::<C>(x, cs, vars);
            (
                match o {
                    EvalV::Value(e) => RunV::Shown(simplified::<C>(e)),
                    EvalV::Fail(err) => RunV::Fail(err),
                    EvalV::Fault => RunV::Fault,
                },
                v,
            )
        },
        Some(StatementV::Assign(s, e, x)) => if !in_range(s, e, cs) {
            (RunV::Fail(ErrorV::Syntax), vars)
        } else {
            let (o, v) = eval_s::<C>(x, cs, vars);
            match o {
                EvalV::Value(val) => (
                    RunV::Quiet,
                    insert_s::<String, SExpr<C::V>>(v, cs.subrange(s as int, e as int), val),
                ),
                EvalV::Fail(err) => (RunV::Fail(err), v),
                EvalV::Fault => (RunV::Fault, v),
            }
        },
    }
}

/// Evaluation keeps the variables in name order.
pub proof fn lemma_eval_sorted<C: Coefficient>(a: AstV, cs: Seq<char>, vars: VarsV<C::V>)
    requires
        sorted_keys::<String, SExpr<C::V>>(vars),
    ensures
        sorted_keys::<String, SExpr<C::V>>(eval_s::<C>(a, cs, vars).1),
    decreases a,
{
    match a {
        AstV::Symbol(s, e) => {
            if in_range(s, e, cs) {
                let name = cs.subrange(s as int, e as int);
                crate::sorted_map::lemma_insert_sorted::<String, SExpr<C::V>>(
                    vars,
                    name,
                    SExpr::Symbol(name),
                );
            }
        },
        AstV::Call(s, e, args) => {
            lemma_eval_args_sorted::<C>(args, cs, vars);
        },
        AstV::Binary(op, l, r) => {
            lemma_eval_sorted::<C>(*l, cs, vars);
            lemma_eval_sorted::<C>(*r, cs, eval_s::<C>(*l, cs, vars).1);
        },
        _ => {},
    }
}

pub proof fn lemma_eval_args_sorted<C: Coefficient>(args: Seq<AstV>, cs: Seq<char>, vars: VarsV<C::V>)
    requires
        sorted_keys::<String, SExpr<C::V>>(vars),
    ensures
        sorted_keys::<String, SExpr<C::V>>(eval_args_s::<C>(args, cs, vars).1),
    decreases args,
{
    if args.len() > 0 {
        let p = args.subrange(0, args.len() - 1);
        lemma_eval_args_sorted::<C>(p, cs, vars);
        lemma_eval_sorted::<C>(args[args.len() - 1], cs, eval_args_s::<C>(p, cs, vars).1);
    }
}

/// Evaluation never changes the value of a variable: it only records names
/// met for the first time.
pub proof fn law_eval_keeps_values<C: Coefficient>(a: AstV, cs: Seq<char>, vars: VarsV<C::V>, k: Seq<char>)
    requires
        sorted_keys::<String, SExpr<C::V>>(vars),
        get_s::<String, SExpr<C::V>>(vars, k) is Some,
    ensures
        get_s::<String, SExpr<C::V>>(eval_s::<C>(a, cs, vars).1, k) == get_s::<String, SExpr<C::V>>(vars, k),
    decreases a,
{
    match a {
        AstV::Symbol(s, e) => {
            if in_range(s, e, cs) {
                let name = cs.subrange(s as int, e as int);
                crate::sorted_map::law_get_insert::<String, SExpr<C::V>>(vars, name, SExpr::Symbol(name), k);
            }
        },
        AstV::Call(s, e, args) => {
            lemma_eval_args_keeps_values::<C>(args, cs, vars, k);
        },
        AstV::Binary(op, l, r) => {
            lemma_eval_sorted::<C>(*l, cs, vars);
            law_eval_keeps_values::<C>(*l, cs, vars, k);
            law_eval_keeps_values::<C>(*r, cs, eval_s::<C>(*l, cs, vars).1, k);
        },
        _ => {},
    }
}

proof fn lemma_eval_args_keeps_values<C: Coefficient>(
    args: Seq<AstV>,
    cs: Seq<char>,
    vars: VarsV<C::V>,
    k: Seq<char>,
)
    requires
        sorted_keys::<String, SExpr<C::V>>(vars),
        get_s::<String, SExpr<C::V>>(vars, k) is Some,
    ensures
        get_s::<String, SExpr<C::V>>(eval_args_s::<C>(args, cs, vars).1, k) == get_s::<String, SExpr<C::V>>(
            vars,
            k,
        ),
    decreases args,
{
    if args.len() > 0 {
        let p = args.subrange(0, args.len() - 1);
        lemma_eval_args_keeps_values::<C>(p, cs, vars, k);
        lemma_eval_args_sorted::<C>(p, cs, vars);
        law_eval_keeps_values::<C>(args[args.len() - 1], cs, eval_args_s::<C>(p, cs, vars).1, k);
    }
}

/// An assignment whose right side comes to a value binds the name to that
/// value: looking the name up afterwards gives it back, and every other
/// variable keeps what evaluating the right side left it.
pub proof fn law_assignment_binds<C: Coefficient>(vars: VarsV<C::V>, cs: Seq<char>, other: Seq<char>)
    requires
        sorted_keys::<String, SExpr<C::V>>(vars),
        parse_line(cs) matches Some(StatementV::Assign(s, e, x)) && in_range(s, e, cs)
            && eval_s::<C>(x, cs, vars).0 is Value,
    ensures
        parse_line(cs) matches Some(StatementV::Assign(s, e, x)) && {
            let (o, v) = eval_s::<C>(x, cs, vars);
            let name = cs.subrange(s as int, e as int);
            &&& run_s::<C>(vars, cs).0 is Quiet
            &&& get_s::<String, SExpr<C::V>>(run_s::<C>(vars, cs).1, name) == Some(o->Value_0)
            &&& other != name ==> get_s::<String, SExpr<C::V>>(run_s::<C>(vars, cs).1, other)
                == get_s::<String, SExpr<C::V>>(v, other)
        },
{
    match parse_line(cs) {
        Some(StatementV::Assign(s, e, x)) => {
            lemma_eval_sorted::<C>(x, cs, vars);
            let (o, v) = eval_s::<C>(x, cs, vars);
            crate::sorted_map::law_get_insert::<String, SExpr<C::V>>(
                v,
                cs.subrange(s as int, e as int),
                o->Value_0,
                other,
            );
        },
        _ => {},
    }
}

/// The expression a text begins with.
pub open spec fn leading_expr(cs: Seq<char>) -> Option<AstV> {
    match lex(cs) {
        Some(ts) => match parse_sum(ts, 0) {
            Some((x, _)) => Some(x),
            None => None,
        },
        None => None,
    }
}

/// The outcome of evaluation, as a value.
pub enum Outcome<C> {
    Value(Expr<C>),
    Fail(InterpretError),
    Fault,
}

impl<C: View> View for Outcome<C> {
    type V = EvalV<C::V>;

    open spec fn view(&self) -> EvalV<C::V> {
        match *self {
            Outcome::Value(e) => EvalV::Value(e@),
            Outcome::Fail(e) => EvalV::Fail(e@),
            Outcome::Fault => EvalV::Fault,
        }
    }
}

/// Whether the characters `s..e` of the input spell `word`.
fn spells(input: &str, s: usize, e: usize, word: &str) -> (r: bool)
    requires
        s <= e <= input@.len(),
    ensures
        r == (input@.subrange(s as int, e as int) == word@),
{
    let w = input.substring_char(s, e);
    let n = w.unicode_len();
    if n != word.unicode_len() {
        return false;
    }
    for i in 0..n
        invariant
            w@ == input@.subrange(s as int, e as int),
            n == w@.len(),
            n == word@.len(),
            forall|k: int| 0 <= k < i ==> w@[k] == word@[k],
    {
        if w.get_char(i) != word.get_char(i) {
            assert(w@[i as int] != word@[i as int]);
            return false;
        }
    }
    assert(w@ =~= word@);
    true
}

/// Polynomial argument `i`, as `poly_arg_s` says.
fn poly_arg<C: Coefficient>(args: &Vec<Expr<C>>, i: usize) -> (r: Result<Polynomial<C>, InterpretError>)
    ensures
        match poly_arg_s::<C>(views(args@), i as int) {
            Ok(p) => r matches Ok(x) && x@ == p,
            Err(e) => r matches Err(x) && x@ == e,
        },
{
    if args.len() <= i {
        return Err(InterpretError::TooFewArguments);
    }
    match Polynomial::try_from(&args[i]) {
        Ok(p) => Ok(p),
        Err(_) => Err(InterpretError::NotPolynomial),
    }
}

/// Symbol argument `i`, as `symbol_arg_s` says.
fn symbol_arg<C: Coefficient>(args: &Vec<Expr<C>>, i: usize) -> (r: Result<&Arc<Symbol>, InterpretError>)
    ensures
        match symbol_arg_s(views(args@), i as int) {
            Ok(s) => r matches Ok(x) && x@ == s,
            Err(e) => r matches Err(x) && x@ == e,
        },
{
    if args.len() <= i {
        return Err(InterpretError::TooFewArguments);
    }
    match &args[i] {
        Expr::Symbol(s) => Ok(s),
        _ => Err(InterpretError::MustProvideSymbol),
    }
}

/// Whether some monomial lists `sym` with degree zero.
fn has_zero_degree<C: Coefficient>(p: &Polynomial<C>, sym: &Arc<Symbol>) -> (r: bool)
    ensures
        r == !no_zero_degree(p@, sym@),
{
    let ghost pv = p@;
    let n = p.0.len();
    for i in 0..n
        invariant
            pv == p@,
            n == pv.len(),
            forall|a: int, b: int|
                0 <= a < i && 0 <= b < pv[a].0.len() && (#[trigger] pv[a].0[b]).0 == sym@ ==> pv[a].0[b].1 > 0,
    {
        let (t, _) = p.0.entry(i);
        let k = t.len();
        for j in 0..k
            invariant
                pv == p@,
                0 <= i < pv.len(),
                t@ == pv[i as int].0,
                k == t@.len(),
                forall|a: int, b: int|
                    0 <= a < i && 0 <= b < pv[a].0.len() && (#[trigger] pv[a].0[b]).0 == sym@ ==> pv[a].0[b].1 > 0,
                forall|b: int| 0 <= b < j && (#[trigger] pv[i as int].0[b]).0 == sym@ ==> pv[i as int].0[b].1 > 0,
        {
            let (k2, d) = t.0.entry(j);
            if k2.same(sym) && d.is_zero() {
                assert(pv[i as int].0[j as int].0 == sym@ && pv[i as int].0[j as int].1 == 0);
                return true;
            }
        }
    }
    false
}

/// A division function of the language applied to polynomials, as
/// `division_call_s` says.
fn divide<C: Coefficient>(
    input: &str,
    s: usize,
    e: usize,
    a: &Polynomial<C>,
    b: &Polynomial<C>,
    sym: &Arc<Symbol>,
) -> (r: Outcome<C>)
    requires
        s <= e <= input@.len(),
    ensures
        r@ == division_call_s::<C>(input@.subrange(s as int, e as int), a@, b@, sym@),
{
    if spells(input, s, e, "ploy_div") {
        match a.divmod_within(b, sym, u64::MAX) {
            Some((q, _)) => Outcome::Value(Expr::from_polynomial(&q)),
            None => Outcome::Fail(InterpretError::NoProgress),
        }
    } else if spells(input, s, e, "pseudo_div") || spells(input, s, e, "pseudo_mod") {
        match a.pseudo_divmod_within(b, sym, u64::MAX) {
            Some((q, r, _)) => if spells(input, s, e, "pseudo_div") {
                Outcome::Value(Expr::from_polynomial(&q))
            } else {
                Outcome::Value(Expr::from_polynomial(&r))
            },
            None => Outcome::Fail(InterpretError::NoProgress),
        }
    } else {
        Outcome::Fault
    }
}

/// A function of the language applied to evaluated arguments, as `call_s`
/// says.
fn call<C: Coefficient>(input: &str, s: usize, e: usize, args: &Vec<Expr<C>>) -> (r: Outcome<C>)
    requires
        s <= e <= input@.len(),
    ensures
        r@ == call_s::<C>(input@.subrange(s as int, e as int), views(args@)),
{
    reveal(call_s);
    if spells(input, s, e, "ploy_div") || spells(input, s, e, "poly_mod") || spells(
        input,
        s,
        e,
        "pseudo_div",
    ) || spells(input, s, e, "pseudo_mod") {
        let a = match poly_arg(args, 0) {
            Ok(a) => a,
            Err(x) => {
                return Outcome::Fail(x);
            },
        };
        let b = match poly_arg(args, 1) {
            Ok(b) => b,
            Err(x) => {
                return Outcome::Fail(x);
            },
        };
        let sym = match symbol_arg(args, 2) {
            Ok(sym) => sym,
            Err(x) => {
                return Outcome::Fail(x);
            },
        };
        divide(input, s, e, &a, &b, sym)
    } else if spells(input, s, e, "diff") {
        let a = match poly_arg(args, 0) {
            Ok(a) => a,
            Err(x) => {
                return Outcome::Fail(x);
            },
        };
        let sym = match symbol_arg(args, 1) {
            Ok(sym) => sym,
            Err(x) => {
                return Outcome::Fail(x);
            },
        };
        if has_zero_degree(&a, sym) {
            Outcome::Fault
        } else {
            Outcome::Value(Expr::from_polynomial(&a.diff(sym)))
        }
    } else if spells(input, s, e, "resultant") || spells(input, s, e, "gcd") {
        match poly_arg(args, 0) {
            Ok(_) => {},
            Err(x) => {
                return Outcome::Fail(x);
            },
        }
        match poly_arg(args, 1) {
            Ok(_) => {},
            Err(x) => {
                return Outcome::Fail(x);
            },
        }
        match symbol_arg(args, 2) {
            Ok(_) => {},
            Err(x) => {
                return Outcome::Fail(x);
            },
        }
        Outcome::Fail(InterpretError::Unsupported(input.substring_char(s, e).to_owned()))
    } else if spells(input, s, e, "total_degree") {
        match poly_arg(args, 0) {
            Ok(a) => Outcome::Value(Expr::Const(C::from_natural(&a.total_degree()))),
            Err(x) => Outcome::Fail(x),
        }
    } else if spells(input, s, e, "degree") || spells(input, s, e, "leading_coef") {
        let a = match poly_arg(args, 0) {
            Ok(a) => a,
            Err(x) => {
                return Outcome::Fail(x);
            },
        };
        let sym = match symbol_arg(args, 1) {
            Ok(sym) => sym,
            Err(x) => {
                return Outcome::Fail(x);
            },
        };
        if spells(input, s, e, "degree") {
            Outcome::Value(Expr::Const(C::from_natural(&a.degree(sym))))
        } else {
            Outcome::Value(a.leading_coef(sym))
        }
    } else if spells(input, s, e, "coef") {
        match poly_arg(args, 0) {
            Ok(_) => {},
            Err(x) => {
                return Outcome::Fail(x);
            },
        }
        if args.len() < 3 {
            return Outcome::Fail(InterpretError::TooFewArguments);
        }
        match (&args[1], &args[2]) {
            (Expr::Symbol(_), Expr::Const(d)) => match d.to_natural() {
                Some(_) => Outcome::Fail(InterpretError::Unsupported(input.substring_char(s, e).to_owned())),
                None => Outcome::Fail(InterpretError::DegreeNotNatural),
            },
            _ => Outcome::Fail(InterpretError::MustProvideSymbolAndDegree),
        }
    } else if spells(input, s, e, "expand") {
        if args.len() < 1 {
            Outcome::Fail(InterpretError::TooFewArguments)
        } else {
            Outcome::Value(args[0].expand())
        }
    } else {
        Outcome::Fail(InterpretError::UnknownFunction(input.substring_char(s, e).to_owned()))
    }
}

/// The operator applied to two values, as `apply_s` says.
fn apply<C: Coefficient>(op: BinOp, a: &Expr<C>, b: &Expr<C>) -> (r: Expr<C>)
    ensures
        r@ == apply_s::<C>(op, a@, b@),
{
    match op {
        BinOp::Add => a.add(b),
        BinOp::Sub => a.sub(b),
        BinOp::Mul => a.mul(b),
        BinOp::Div => a.div(b),
        BinOp::Pow => a.simplify().pow(&b.simplify()),
    }
}

/// Evaluates an expression of the line `input`, as `eval_s` says.
fn eval<C: Coefficient>(a: &Ast, input: &str, vars: &mut SortedMap<String, Expr<C>>) -> (r: Outcome<C>)
    ensures
        (r@, final(vars)@) == eval_s::<C>(a@, input@, old(vars)@),
    decreases a,
{
    match a {
        Ast::Number(s, e) => {
            if !(*s <= *e && *e <= input.unicode_len()) {
                return Outcome::Fail(InterpretError::Syntax);
            }
            let text = input.substring_char(*s, *e);
            match C::from_text(text) {
                Some(c) => Outcome::Value(Expr::Const(c)),
                None => Outcome::Fail(InterpretError::InvalidNumber(text.to_owned())),
            }
        },
        Ast::Symbol(s, e) => {
            if !(*s <= *e && *e <= input.unicode_len()) {
                return Outcome::Fail(InterpretError::Syntax);
            }
            let name = input.substring_char(*s, *e).to_owned();
            match vars.get(&name) {
                Some(v) => Outcome::Value(v.duplicate()),
                None => {
                    let sym: Expr<C> = Expr::Symbol(new_shared(name.as_str()));
                    let copy = sym.duplicate();
                    vars.insert(name, copy);
                    Outcome::Value(sym)
                },
            }
        },
        Ast::Call(s, e, args) => {
            if !(*s <= *e && *e <= input.unicode_len()) {
                return Outcome::Fail(InterpretError::Syntax);
            }
            match eval_args(args, input, vars) {
                Ok(vals) => call(input, *s, *e, &vals),
                Err(o) => o,
            }
        },
        Ast::Binary(op, l, r) => {
            let o1 = eval(l, input, vars);
            match o1 {
                Outcome::Fault => Outcome::Fault,
                Outcome::Value(x) => {
                    let o2 = eval(r, input, vars);
                    match o2 {
                        Outcome::Value(y) => Outcome::Value(apply(*op, &x, &y)),
                        _ => o2,
                    }
                },
                Outcome::Fail(err) => {
                    let o2 = eval(r, input, vars);
                    match o2 {
                        Outcome::Fault => Outcome::Fault,
                        _ => Outcome::Fail(err),
                    }
                },
            }
        },
    }
}

/// Evaluates arguments in order, as `eval_args_s` says.
fn eval_args<C: Coefficient>(args: &Vec<Ast>, input: &str, vars: &mut SortedMap<String, Expr<C>>) -> (r:
    Result<Vec<Expr<C>>, Outcome<C>>)
    ensures
        match eval_args_s::<C>(crate::syntax::ast_views(args@), input@, old(vars)@) {
            (Ok(vals), v) => r matches Ok(x) && views(x@) == vals && final(vars)@ == v,
            (Err(o), v) => r matches Err(x) && x@ == o && final(vars)@ == v,
        },
    decreases args,
{
    let ghost av = crate::syntax::ast_views(args@);
    let ghost v0 = vars@;
    let mut vals: Vec<Expr<C>> = Vec::new();
    let n = args.len();
    proof {
        assert(av.subrange(0, 0) =~= Seq::<AstV>::empty());
        assert(views(vals@) =~= Seq::<SExpr<C::V>>::empty());
    }
    let mut i: usize = 0;
    while i < n
        invariant
            av == crate::syntax::ast_views(args@),
            n == av.len(),
            n == args@.len(),
            i <= n,
            v0 == old(vars)@,
            eval_args_s::<C>(av.subrange(0, i as int), input@, v0) == (
                Ok::<Seq<SExpr<C::V>>, EvalV<C::V>>(views(vals@)),
                vars@,
            ),
        decreases n - i,
    {
        let ghost before = vars@;
        let ghost prev = views(vals@);
        proof {
            assert(av[i as int] == args@[i as int]@);
        }
        let o = eval(&args[i], input, vars);
        proof {
            lemma_args_next::<C>(av, i as int, input@, v0, prev, before, o@, vars@);
        }
        match o {
            Outcome::Value(x) => {
                proof {
                    lemma_views_push(vals@, x);
                }
                vals.push(x);
            },
            _ => {
                proof {
                    lemma_args_stop::<C>(av, i + 1, n as int, input@, v0);
                    assert(av.subrange(0, n as int) =~= av);
                }
                return Err(o);
            },
        }
        i = i + 1;
    }
    proof {
        assert(av.subrange(0, n as int) =~= av);
    }
    Ok(vals)
}

proof fn lemma_args_next<C: Coefficient>(
    av: Seq<AstV>,
    i: int,
    cs: Seq<char>,
    v0: VarsV<C::V>,
    prev: Seq<SExpr<C::V>>,
    before: VarsV<C::V>,
    out: EvalV<C::V>,
    after: VarsV<C::V>,
)
    requires
        0 <= i < av.len(),
        eval_args_s::<C>(av.subrange(0, i), cs, v0) == (Ok::<Seq<SExpr<C::V>>, EvalV<C::V>>(prev), before),
        eval_s::<C>(av[i], cs, before) == (out, after),
    ensures
        eval_args_s::<C>(av.subrange(0, i + 1), cs, v0) == (match out {
            EvalV::Value(x) => (Ok::<Seq<SExpr<C::V>>, EvalV<C::V>>(prev.push(x)), after),
            _ => (Err(out), after),
        }),
{
    lemma_prefix_step(av, i);
}

/// Once an argument fails to come to a value, later arguments are not
/// evaluated.
proof fn lemma_args_stop<C: Coefficient>(av: Seq<AstV>, k: int, j: int, cs: Seq<char>, v0: VarsV<C::V>)
    requires
        0 <= k <= j <= av.len(),
        eval_args_s::<C>(av.subrange(0, k), cs, v0).0 is Err,
    ensures
        eval_args_s::<C>(av.subrange(0, j), cs, v0) == eval_args_s::<C>(av.subrange(0, k), cs, v0),
    decreases j - k,
{
    if j > k {
        lemma_args_stop::<C>(av, k, j - 1, cs, v0);
        lemma_prefix_step(av, j - 1);
    }
}

/// A copy of the variables.
fn copy_vars<C: Coefficient>(vars: &SortedMap<String, Expr<C>>) -> (r: SortedMap<String, Expr<C>>)
    ensures
        r@ == vars@,
{
    let ghost s = vars@;
    let mut m: SortedMap<String, Expr<C>> = SortedMap::new();
    let n = vars.len();
    for i in 0..n
        invariant
            s == vars@,
            n == s.len(),
            sorted_keys::<String, SExpr<C::V>>(s),
            m@ == s.subrange(0, i as int),
    {
        let (k, v) = vars.entry(i);
        proof {
            lemma_insert_next::<String, SExpr<C::V>>(s, i as int);
        }
        m.insert(k.clone(), v.duplicate());
    }
    proof {
        assert(s.subrange(0, n as int) =~= s);
    }
    m
}

/// What running a line came to.
pub enum RunOutcome<C> {
    Shown(Expr<C>),
    Quiet,
    Fail(InterpretError),
    Fault,
}

impl<C: View> View for RunOutcome<C> {
    type V = RunV<C::V>;

    open spec fn view(&self) -> RunV<C::V> {
        match *self {
            RunOutcome::Shown(e) => RunV::Shown(e@),
            RunOutcome::Quiet => RunV::Quiet,
            RunOutcome::Fail(e) => RunV::Fail(e@),
            RunOutcome::Fault => RunV::Fault,
        }
    }
}

/// Runs a line against the variables, as `run_s` says.
fn run<C: Coefficient>(vars: &mut SortedMap<String, Expr<C>>, input: &str) -> (r: RunOutcome<C>)
    ensures
        (r@, final(vars)@) == run_s::<C>(old(vars)@, input@),
{
    match parse(input) {
        None => RunOutcome::Fail(InterpretError::Syntax),
        Some(Statement::Empty) => RunOutcome::Quiet,
        Some(Statement::Eval(x)) => match eval(&x, input, vars) {
            Outcome::Value(e) => RunOutcome::Shown(e.simplify()),
            Outcome::Fail(err) => RunOutcome::Fail(err),
            Outcome::Fault => RunOutcome::Fault,
        },
        Some(Statement::Assign(s, e, x)) => {
            if !(s <= e && e <= input.unicode_len()) {
                return RunOutcome::Fail(InterpretError::Syntax);
            }
            let o = eval(&x, input, vars);
            match o {
                Outcome::Value(val) => {
                    vars.insert(input.substring_char(s, e).to_owned(), val);
                    RunOutcome::Quiet
                },
                Outcome::Fail(err) => RunOutcome::Fail(err),
                Outcome::Fault => RunOutcome::Fault,
            }
        },
    }
}

/// The interpreter of the input language: its variables.
pub struct Interpreter<C: Coefficient> {
    pub vars: SortedMap<String, Expr<C>>,
}

impl<C: Coefficient> Interpreter<C> {
    /// An interpreter with the given variables.
    pub fn new(vars: SortedMap<String, Expr<C>>) -> (r: Interpreter<C>)
        ensures
            r.vars@ == vars@,
    {
        Interpreter { vars }
    }

    /// Whether running `input` would come to a fault (an argument the
    /// language's functions cannot take, where the program stops).
    pub fn faults(&self, input: &str) -> (r: bool)
        ensures
            r == (run_s::<C>(self.vars@, input@).0 is Fault),
    {
        let mut scratch = copy_vars(&self.vars);
        match run(&mut scratch, input) {
            RunOutcome::Fault => true,
            _ => false,
        }
    }

    /// Runs one line: an expression is evaluated and its simplified value
    /// returned for showing; an assignment binds the name; `Err` says why a
    /// line was refused. Names met for the first time are recorded as
    /// symbols, also on a refused line.
    pub fn execute(&mut self, input: &str) -> (r: Result<Option<Expr<C>>, InterpretError>)
        requires
            !(run_s::<C>(old(self).vars@, input@).0 is Fault),
        ensures
            final(self).vars@ == run_s::<C>(old(self).vars@, input@).1,
            match run_s::<C>(old(self).vars@, input@).0 {
                RunV::Shown(e) => r matches Ok(Some(x)) && x@ == e,
                RunV::Quiet => r matches Ok(None),
                RunV::Fail(err) => r matches Err(x) && x@ == err,
                RunV::Fault => false,
            },
    {
        match run(&mut self.vars, input) {
            RunOutcome::Shown(e) => Ok(Some(e)),
            RunOutcome::Quiet => Ok(None),
            RunOutcome::Fail(err) => Err(err),
            RunOutcome::Fault => Err(InterpretError::Syntax),
        }
    }
}

/// What reading an expression from a text comes to.
pub open spec fn from_str_s<C: Coefficient>(cs: Seq<char>, vars: VarsV<C::V>) -> (EvalV<C::V>, VarsV<C::V>) {
    match leading_expr(cs) {
        Some(x) => eval_s::<C>(x, cs, vars),
        None => (EvalV::Fail(ErrorV::Syntax), vars),
    }
}

/// Reads and evaluates the expression a text begins with.
fn eval_text<C: Coefficient>(input: &str, vars: &mut SortedMap<String, Expr<C>>) -> (r: Outcome<C>)
    ensures
        (r@, final(vars)@) == from_str_s::<C>(input@, old(vars)@),
{
    let ts = match tokenize(input) {
        Some(ts) => ts,
        None => {
            return Outcome::Fail(InterpretError::Syntax);
        },
    };
    match crate::syntax::parse_expression(&ts) {
        Some(x) => eval(&x, input, vars),
        None => Outcome::Fail(InterpretError::Syntax),
    }
}

impl<C: Coefficient> Expr<C> {
    /// Whether reading `input` would come to a fault.
    pub fn from_str_faults(input: &str, vars: &SortedMap<String, Expr<C>>) -> (r: bool)
        ensures
            r == (from_str_s::<C>(input@, vars@).0 is Fault),
    {
        let mut scratch = copy_vars(vars);
        match eval_text(input, &mut scratch) {
            Outcome::Fault => true,
            _ => false,
        }
    }

    /// Reads the expression `input` begins with (the whole text must split
    /// into tokens) and evaluates it against the variables, recording names
    /// met for the first time as symbols.
    pub fn from_str(input: &str, vars: &mut SortedMap<String, Expr<C>>) -> (r: Result<Expr<C>, InterpretError>)
        requires
            !(from_str_s::<C>(input@, old(vars)@).0 is Fault),
        ensures
            final(vars)@ == from_str_s::<C>(input@, old(vars)@).1,
            match from_str_s::<C>(input@, old(vars)@).0 {
                EvalV::Value(e) => r matches Ok(x) && x@ == e,
                EvalV::Fail(err) => r matches Err(x) && x@ == err,
                EvalV::Fault => false,
            },
    {
        match eval_text(input, vars) {
            Outcome::Value(e) => Ok(e),
            Outcome::Fail(err) => Err(err),
            Outcome::Fault => Err(InterpretError::Syntax),
        }
    }
}

} // verus!
