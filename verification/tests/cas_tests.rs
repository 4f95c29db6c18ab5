use cas::coef::{Coefficient, Scalar};
use cas::expr::Expr;
use cas::interpreter::{InterpretError, Interpreter};
use cas::matrix::Matrix;
use cas::natural::Natural;
use cas::polynomial::Polynomial;
use cas::print::{Canvas, Layout, Print};
use cas::rational::Rational;
use cas::sorted_map::SortedMap;
use cas::symbol::{new_shared, Symbol};
use cas::syntax::{parse, tokenize, Statement, TokenKind};
use cas::term::Term;
use std::cmp::Ordering;

fn q(n: i64) -> Rational {
    Rational::from_integer(n)
}

fn c(n: i64) -> Expr<Rational> {
    Expr::Const(q(n))
}

fn s(name: &str) -> Expr<Rational> {
    Expr::Symbol(new_shared(name))
}

fn pow(a: Expr<Rational>, b: Expr<Rational>) -> Expr<Rational> {
    Expr::Pow(Box::new(a), Box::new(b))
}

fn natural(n: u64) -> Natural {
    Natural::from_u64(n)
}

fn interp() -> Interpreter<Rational> {
    Interpreter::new(SortedMap::new())
}

fn run(i: &mut Interpreter<Rational>, line: &str) -> Result<Option<String>, InterpretError> {
    assert!(!i.faults(line));
    i.execute(line).map(|o| o.map(|e| e.to_text()))
}

// ----- symbols and numbers -------------------------------------------------

#[test]
fn symbol_keeps_its_name() {
    let x = Symbol::new("alpha");
    assert_eq!(x.name(), "alpha");
    assert!(x.same(&Symbol::new("alpha")));
    assert!(!x.same(&Symbol::new("beta")));
}

#[test]
fn natural_arithmetic() {
    let a = natural(300);
    let b = natural(500);
    assert!(a.plus(&b).same(&natural(800)));
    assert!(a.times(&b).same(&natural(150000)));
    assert!(b.minus(&a).same(&natural(200)));
    assert!(a.less(&b));
    assert!(!b.less(&a));
    assert!(natural(0).is_zero());
    assert!(a.duplicate().max(natural(7)).same(&natural(300)));
    assert_eq!(natural(258).to_bytes(), vec![2u8, 1u8]);
    assert!(Natural::from_bytes(vec![2u8, 1u8]).same(&natural(258)));
}

#[test]
fn rational_parse_and_text() {
    assert_eq!(Rational::parse("6/8").unwrap().text(), "3/4");
    assert_eq!(Rational::parse("-2").unwrap().text(), "-2");
    assert_eq!(Rational::parse("12").unwrap().text(), "12");
    assert!(Rational::parse("abc").is_none());
    assert!(Rational::from_text("1/0").is_none());
    assert_eq!(Rational::parse("+5").unwrap().text(), "5");
    assert_eq!(Rational::parse("5_0").unwrap().text(), "50");
    assert_eq!(Rational::parse("3/-6").unwrap().text(), "-1/2");
    assert!(Rational::parse("-+5").is_none());
    assert!(Rational::parse("_5").is_none());
    assert!(Rational::parse("1/2/3").is_none());
    assert!(Rational::parse("").is_none());
}

#[test]
fn rational_arithmetic() {
    let half = Rational::parse("1/2").unwrap();
    let third = Rational::parse("1/3").unwrap();
    assert_eq!(half.plus(&third).text(), "5/6");
    assert_eq!(half.minus(&third).text(), "1/6");
    assert_eq!(half.times(&third).text(), "1/6");
    assert_eq!(half.divided_by(&third).text(), "3/2");
    assert_eq!(half.negated().text(), "-1/2");
    assert!(q(0).is_zero());
    assert!(q(1).is_one());
    assert!(half.same(&Rational::parse("2/4").unwrap()));
    assert!(half.plus(&third).same(&third.plus(&half)));
    assert!(half.times(&third).same(&third.times(&half)));
    assert!(half.minus(&half).is_zero());
    assert!(half.plus(&Rational::zero()).same(&half));
    assert!(half.times(&Rational::one()).same(&half));
}

#[test]
fn rational_to_natural() {
    assert!(q(7).to_natural().unwrap().same(&natural(7)));
    assert!(q(0).to_natural().unwrap().same(&natural(0)));
    assert!(q(-1).to_natural().is_none());
    // The decimal quotient 3.5 has the integer mantissa 35.
    assert!(Rational::parse("7/2").unwrap().to_natural().unwrap().same(&natural(35)));
    assert_eq!(Rational::from_natural(&natural(42)).text(), "42");
}

// ----- expressions ---------------------------------------------------------

#[test]
fn flatten_merges_nested_sums() {
    let e = Expr::Add(vec![s("x"), Expr::Add(vec![s("y"), s("z")])]);
    assert_eq!(e.flatten().to_text(), "x+y+z");
    let once = e.flatten();
    assert!(once.flatten().eq(&once));
    assert_eq!(Expr::<Rational>::Add(vec![]).flatten().to_text(), "0");
    assert_eq!(Expr::<Rational>::Mul(vec![]).flatten().to_text(), "1");
    assert_eq!(Expr::Mul(vec![s("x")]).flatten().to_text(), "x");
}

#[test]
fn simplify_collects_like_terms() {
    assert_eq!(Expr::Add(vec![s("x"), s("x")]).simplify().to_text(), "2*x");
    assert_eq!(Expr::Mul(vec![s("x"), s("x")]).simplify().to_text(), "x^2");
    assert_eq!(Expr::Add(vec![c(2), c(3)]).simplify().to_text(), "5");
    assert_eq!(Expr::Mul(vec![s("x"), c(0)]).simplify().to_text(), "0");
    assert_eq!(pow(s("x"), c(1)).simplify().to_text(), "x");
}

#[test]
fn evaluate_folds_constants() {
    let e = Expr::Add(vec![c(1), s("x"), c(2)]);
    assert_eq!(e.evaluate().to_text(), "x+3");
    let m = Expr::Mul(vec![c(2), s("y"), c(3)]);
    assert_eq!(m.evaluate().to_text(), "y*6");
}

#[test]
fn expression_equality_ignores_operand_order() {
    let a = Expr::Add(vec![s("x"), s("y")]);
    let b = Expr::Add(vec![s("y"), s("x")]);
    assert!(a.eq(&b));
    assert!(!a.eq(&Expr::Add(vec![s("x"), s("x")])));
    assert!(c(0).is_zero());
    assert!(Expr::Mul(vec![s("x"), c(0)]).is_zero());
    assert!(pow(s("x"), c(0)).is_one());
}

#[test]
fn arithmetic_operators() {
    assert_eq!(s("x").add(&c(1)).to_text(), "x+1");
    assert_eq!(s("x").sub(&s("x")).to_text(), "0");
    assert_eq!(s("x").mul(&c(3)).to_text(), "3*x");
    assert_eq!(s("x").neg().to_text(), "-x");
    assert_eq!(s("x").pow(&c(2)).to_text(), "x^2");
}

#[test]
fn expand_multiplies_out_sums() {
    let e = Expr::Mul(vec![Expr::Add(vec![s("x"), c(1)]), Expr::Add(vec![s("y"), c(1)])]);
    assert_eq!(e.expand().to_text(), "y*x+y+x+1");
}

// ----- monomials and polynomials ------------------------------------------

#[test]
fn monomial_degrees() {
    let x = new_shared("x");
    let y = new_shared("y");
    let tx = Term::from_symbol(&x);
    let ty = Term::from_symbol(&y);
    let xy = tx.mul(&ty);
    let xxy = xy.mul(&tx);
    assert!(xxy.degree(&x).same(&natural(2)));
    assert!(xxy.degree(&y).same(&natural(1)));
    assert!(xxy.total_degree().same(&natural(3)));
    let cube = xxy.pow(&natural(3));
    assert!(cube.degree(&x).same(&natural(6)));
    assert!(cube.degree(&new_shared("z")).same(&natural(0)));
    assert!(xxy.eq(&xxy.duplicate()));
    assert!(!xxy.eq(&xy));
    assert_eq!(xxy.partial_compare(&xy), Some(Ordering::Greater));
    assert_eq!(xy.partial_compare(&xxy), Some(Ordering::Less));
    assert_eq!(Term::empty().len(), 0);
}

#[test]
fn polynomial_from_expression() {
    let x = new_shared("x");
    let e = Expr::Add(vec![pow(s("x"), c(2)), Expr::Mul(vec![c(3), s("x")]), c(1)]);
    let p = Polynomial::try_from(&e).unwrap();
    assert!(p.degree(&x).same(&natural(2)));
    assert!(p.total_degree().same(&natural(2)));
    assert_eq!(p.leading_coef(&x).to_text(), "1");
    assert_eq!(Expr::from_polynomial(&p).to_text(), "3*x+x^2+1");
    assert!(Polynomial::try_from(&pow(s("x"), s("y"))).is_err());
    assert!(Polynomial::try_from(&pow(s("x"), c(-1))).is_err());
}

#[test]
fn polynomial_zero_and_one() {
    assert!(Polynomial::<Rational>::zero().is_zero());
    assert!(Polynomial::<Rational>::one().is_one());
    assert!(!Polynomial::<Rational>::one().is_zero());
    let x = Polynomial::<Rational>::from_term(&Term::from_symbol(&new_shared("x")));
    assert!(!x.is_one());
    assert!(x.sub(&x).is_zero());
}

#[test]
fn polynomial_arithmetic() {
    let x = new_shared("x");
    let px = Polynomial::<Rational>::from_term(&Term::from_symbol(&x));
    let one = Polynomial::<Rational>::one();
    let sum = px.add(&one);
    let square = sum.mul(&sum);
    assert!(square.degree(&x).same(&natural(2)));
    assert_eq!(Expr::from_polynomial(&square).to_text(), "2*x+x^2+1");
    let diff = square.sub(&px.mul(&px));
    assert!(diff.degree(&x).same(&natural(1)));
}

#[test]
fn operation_monomials() {
    let x = new_shared("x");
    let y = new_shared("y");
    let px = Polynomial::<Rational>::from_term(&Term::from_symbol(&x));
    let py = Polynomial::<Rational>::from_term(&Term::from_symbol(&y));
    let one = Polynomial::<Rational>::one();
    let p = px.add(&one);
    let q = py.sub(&one);
    let product = p.mul(&q);
    assert_eq!(product.0.len(), 4);
    let xy = Term::from_symbol(&x).mul(&Term::from_symbol(&y));
    assert!(product.0.get(&xy).is_some());
    assert!(product.0.get(&Term::from_symbol(&x)).is_some());
    assert!(product.0.get(&Term::from_symbol(&y)).is_some());
    assert!(product.0.get(&Term::empty()).is_some());
    let cancelled = p.sub(&p);
    assert_eq!(cancelled.0.len(), 2);
    assert!(cancelled.0.get(&Term::from_symbol(&x)).is_some());
    let sum = p.add(&q);
    assert_eq!(sum.0.len(), 3);
}

#[test]
fn polynomial_derivative() {
    let x = new_shared("x");
    let e = Expr::Add(vec![pow(s("x"), c(3)), Expr::Mul(vec![c(2), s("x")])]);
    let p = Polynomial::try_from(&e).unwrap();
    let d = p.diff(&x);
    assert!(d.degree(&x).same(&natural(2)));
    assert_eq!(Expr::from_polynomial(&d).to_text(), "3*x^2+2");
}

#[test]
fn polynomial_regard_as() {
    let x = new_shared("x");
    let e = Expr::Mul(vec![s("x"), s("y")]);
    let p = Polynomial::try_from(&e).unwrap();
    let r = p.regard_as(&x);
    assert!(r.degree(&x).same(&natural(1)));
    assert!(r.degree(&new_shared("y")).same(&natural(0)));
    assert_eq!(r.leading_coef(&x).to_text(), "y");
    let e2 = Expr::Add(vec![Expr::Mul(vec![pow(s("x"), c(2)), s("y")]), s("z"), c(4)]);
    let r2 = Polynomial::try_from(&e2).unwrap().regard_as(&x);
    for i in 0..r2.0.len() {
        let (t, _) = r2.0.entry(i);
        assert!(t.len() <= 1);
        for (sym, _) in t.hash_entries() {
            assert_eq!(sym.name(), "x");
        }
    }
}

#[test]
fn polynomial_division() {
    let x = new_shared("x");
    let p = Polynomial::try_from(&Expr::Add(vec![pow(s("x"), c(2)), c(-1)])).unwrap();
    let g = Polynomial::try_from(&Expr::Add(vec![s("x"), c(-1)])).unwrap();
    let (quot, rem) = p.divmod(&g, &x);
    assert!(quot.degree(&x).same(&natural(1)));
    assert!(rem.degree(&x).same(&natural(0)));
    let (pq, pr, steps) = p.pseudo_divmod(&g, &x);
    assert!(pq.degree(&x).same(&natural(1)));
    assert!(pr.degree(&x).same(&natural(0)));
    assert!(steps.same(&natural(2)));
    let (wq, wr) = p.divmod_within(&g, &x, 2).unwrap();
    assert!(wq.degree(&x).same(&natural(1)));
    assert!(wr.degree(&x).same(&natural(0)));
    assert!(p.divmod_within(&g, &x, 1).is_none());
    assert!(p.pseudo_divmod_within(&g, &x, 1).is_none());
    let (_, _, wsteps) = p.pseudo_divmod_within(&g, &x, 5).unwrap();
    assert!(wsteps.same(&natural(2)));
}

#[test]
fn division_by_a_constant_does_not_end() {
    let x = new_shared("x");
    let p = Polynomial::try_from(&Expr::Add(vec![pow(s("x"), c(2)), c(-1)])).unwrap();
    let zero = Polynomial::<Rational>::zero();
    let two = Polynomial::new_with_coef(c(2));
    assert!(p.divmod_within(&zero, &x, 50).is_none());
    assert!(p.divmod_within(&two, &x, 50).is_none());
    assert!(p.pseudo_divmod_within(&two, &x, 50).is_none());
}

// ----- matrices ------------------------------------------------------------

#[test]
fn determinants() {
    let mut m: Matrix<Rational> = Matrix::new_zeros(2, 2);
    assert_eq!(m.row(), 2);
    assert_eq!(m.column(), 2);
    m.set(0, 0, q(1));
    m.set(0, 1, q(2));
    m.set(1, 0, q(3));
    m.set(1, 1, q(4));
    assert_eq!(m.det().text(), "-2");
    let three = Matrix(vec![
        vec![q(2), q(0), q(1)],
        vec![q(1), q(3), q(2)],
        vec![q(1), q(1), q(1)],
    ]);
    assert_eq!(three.det().text(), "0");
    let empty: Matrix<Rational> = Matrix(vec![]);
    assert_eq!(empty.det().text(), "1");
    assert_eq!(empty.column(), 0);
    assert_eq!(m.to_text(), "[[1, 2], [3, 4]]");
    assert!(three.has_det());
    let wide: Matrix<Rational> = Matrix::new_zeros(2, 3);
    assert!(!wide.has_det());
    let ragged = Matrix(vec![vec![q(1), q(2), q(3)], vec![q(4), q(5), q(6), q(7)], vec![q(7), q(8), q(9)]]);
    assert!(ragged.has_det());
    assert_eq!(ragged.det().text(), "0");
}

// ----- printing ------------------------------------------------------------

#[test]
fn text_layout_paints_one_row() {
    let l = Layout::Text("abc".to_string());
    assert_eq!(l.width(), 3);
    assert_eq!(l.height(), 1);
    assert!(l.is_paintable());
    assert_eq!(l.paint().lines(), vec!["abc".to_string()]);
    assert_eq!(l.try_paint().unwrap().lines(), vec!["abc".to_string()]);
    assert!(Layout::Text("中".to_string()).try_paint().is_none());
}

#[test]
fn superscript_layout_shape() {
    let e = pow(s("x"), c(2));
    assert!(e.is_printable());
    let l = e.to_layout();
    assert_eq!(l.width(), 2);
    assert_eq!(l.height(), 2);
    assert_eq!(l.paint().lines(), vec![" 2".to_string(), "x ".to_string()]);
}

#[test]
fn product_layout_uses_dots_and_sign() {
    let e = Expr::Mul(vec![c(-1), s("x"), s("y")]);
    assert_eq!(e.to_text(), "-x*y");
    let l = e.to_layout();
    assert_eq!(l.paint().lines(), vec!["-x⋅y".to_string()]);
    assert!(!Expr::<Rational>::Mul(vec![c(-1)]).is_printable());
}

#[test]
fn canvas_paint_at() {
    let mut big = Canvas::new(3, 2);
    let small = Layout::Text("ab".to_string()).paint();
    big.paint_at(&small, 1, 1);
    assert_eq!(big.lines(), vec!["   ".to_string(), " ab".to_string()]);
}

// ----- the input language --------------------------------------------------

#[test]
fn tokens_of_a_line() {
    let t = tokenize("x1 = 23+(y)").unwrap();
    let kinds: Vec<TokenKind> = t.iter().map(|t| t.kind).collect();
    assert_eq!(
        kinds,
        vec![
            TokenKind::Ident,
            TokenKind::Equals,
            TokenKind::Number,
            TokenKind::Plus,
            TokenKind::LParen,
            TokenKind::Ident,
            TokenKind::RParen
        ]
    );
    assert_eq!((t[0].start, t[0].end), (0, 2));
    assert_eq!((t[2].start, t[2].end), (5, 7));
    assert!(tokenize("x $ y").is_none());
}

#[test]
fn parse_statements() {
    assert!(matches!(parse("   "), Some(Statement::Empty)));
    assert!(matches!(parse("a = b"), Some(Statement::Assign(0, 1, _))));
    assert!(matches!(parse("a + b * c ^ d ^ e"), Some(Statement::Eval(_))));
    assert!(parse("a +").is_none());
    assert!(parse("(a").is_none());
    assert!(parse("f(a,)").is_none());
    assert!(matches!(parse("f()"), Some(Statement::Eval(_))));
}

#[test]
fn assignment_then_use() {
    let mut i = interp();
    assert_eq!(run(&mut i, "x = 2").unwrap(), None);
    assert_eq!(run(&mut i, "x + 1").unwrap(), Some("3".to_string()));
    assert_eq!(run(&mut i, "2 * y").unwrap(), Some("2*y".to_string()));
    assert_eq!(run(&mut i, "").unwrap(), None);
}

#[test]
fn evaluation_keeps_existing_values() {
    let mut i = interp();
    run(&mut i, "x = 5").unwrap();
    assert_eq!(run(&mut i, "x + y").unwrap(), Some("y+5".to_string()));
    assert_eq!(i.vars.len(), 2);
    assert_eq!(i.vars.get(&"x".to_string()).unwrap().to_text(), "5");
    assert_eq!(i.vars.get(&"y".to_string()).unwrap().to_text(), "y");
}

#[test]
fn precedence_and_grouping() {
    let mut i = interp();
    assert_eq!(run(&mut i, "2 + 3 * 4").unwrap(), Some("14".to_string()));
    assert_eq!(run(&mut i, "(2 + 3) * 4").unwrap(), Some("20".to_string()));
    assert_eq!(run(&mut i, "10 - 4 - 3").unwrap(), Some("3".to_string()));
    assert_eq!(run(&mut i, "a ^ b ^ c").unwrap(), Some("a^b^c".to_string()));
    assert_eq!(run(&mut i, "1/2 + 1/3").unwrap(), Some("5/6".to_string()));
    assert_eq!(run(&mut i, "2^10").unwrap(), Some("1024".to_string()));
    assert_eq!(run(&mut i, "2^(0-2)").unwrap(), Some("1/4".to_string()));
    assert_eq!(run(&mut i, "0^(0-1)").unwrap(), Some("0".to_string()));
}

#[test]
fn polynomial_functions() {
    let mut i = interp();
    assert_eq!(run(&mut i, "degree(x^2 + x, x)").unwrap(), Some("2".to_string()));
    assert_eq!(run(&mut i, "total_degree(x^2*y + x)").unwrap(), Some("3".to_string()));
    assert_eq!(run(&mut i, "leading_coef(x^2 + 3*x, x)").unwrap(), Some("1".to_string()));
    assert_eq!(run(&mut i, "diff(x^3 + 2*x, x)").unwrap(), Some("3*x^2+2".to_string()));
    assert_eq!(run(&mut i, "expand((x+1)*(y+1))").unwrap(), Some("y*x+y+x+1".to_string()));
    assert_eq!(run(&mut i, "ploy_div(x^2 - 1, x - 1, x)").unwrap(), Some("x+1".to_string()));
    assert_eq!(run(&mut i, "pseudo_mod(x^2 - 1, x - 1, x)").unwrap(), Some("0".to_string()));
}

#[test]
fn refused_lines() {
    let mut i = interp();
    assert!(matches!(run(&mut i, "1 +"), Err(InterpretError::Syntax)));
    assert!(matches!(run(&mut i, "3 $ 4"), Err(InterpretError::Syntax)));
    match run(&mut i, "foo(1)") {
        Err(InterpretError::UnknownFunction(name)) => assert_eq!(name, "foo"),
        other => panic!("unexpected {:?}", other),
    }
    assert!(matches!(run(&mut i, "degree(x)"), Err(InterpretError::TooFewArguments)));
    assert!(matches!(run(&mut i, "degree(x, 2)"), Err(InterpretError::MustProvideSymbol)));
    assert!(matches!(run(&mut i, "degree(x^y, x)"), Err(InterpretError::NotPolynomial)));
    assert!(matches!(run(&mut i, "coef(x, x, y)"), Err(InterpretError::MustProvideSymbolAndDegree)));
    assert!(matches!(run(&mut i, "coef(x, x, 0-1)"), Err(InterpretError::DegreeNotNatural)));
    match run(&mut i, "gcd(x, x, x)") {
        Err(InterpretError::Unsupported(name)) => assert_eq!(name, "gcd"),
        other => panic!("unexpected {:?}", other),
    }
}

#[test]
fn faulting_lines_are_reported() {
    let i = interp();
    assert!(i.faults("poly_mod(x, x, x)"));
    assert!(!i.faults("ploy_div(x^2 - 1, x - 1, x)"));
    assert!(!i.faults("diff(x^2, x)"));
}

#[test]
fn names_met_on_a_refused_line_are_recorded() {
    let mut i = interp();
    assert!(run(&mut i, "foo(z)").is_err());
    assert_eq!(i.vars.len(), 1);
    let (name, value) = i.vars.entry(0);
    assert_eq!(name, "z");
    assert_eq!(value.to_text(), "z");
}

#[test]
fn from_str_reads_a_leading_expression() {
    let mut vars: SortedMap<String, Expr<Rational>> = SortedMap::new();
    assert!(!Expr::from_str_faults("a * 2", &vars));
    let e = Expr::from_str("a * 2", &mut vars).unwrap();
    assert_eq!(e.to_text(), "2*a");
    assert_eq!(vars.len(), 1);
    assert!(matches!(Expr::<Rational>::from_str("*", &mut vars), Err(InterpretError::Syntax)));
}

// ----- further laws and conversions ---------------------------------------

#[test]
fn sorted_map_reads_what_was_written() {
    let mut m: SortedMap<String, Expr<Rational>> = SortedMap::new();
    m.insert("b".to_string(), c(2));
    m.insert("a".to_string(), c(1));
    m.insert("c".to_string(), c(3));
    m.insert("b".to_string(), c(20));
    assert_eq!(m.len(), 3);
    assert_eq!(m.get(&"b".to_string()).unwrap().to_text(), "20");
    assert_eq!(m.get(&"a".to_string()).unwrap().to_text(), "1");
    assert!(m.get(&"d".to_string()).is_none());
    let (first, _) = m.entry(0);
    assert_eq!(first, "a");
    m.remove(&"a".to_string());
    assert!(m.get(&"a".to_string()).is_none());
    assert_eq!(m.len(), 2);
}

#[test]
fn expression_equals_itself() {
    let e = Expr::Add(vec![
        Expr::Mul(vec![s("x"), s("x"), c(2)]),
        pow(s("y"), Expr::Add(vec![s("x"), c(1)])),
        s("x"),
    ]);
    assert!(e.eq(&e.duplicate()));
}

#[test]
fn monomial_hash_entries_skip_zero_degrees() {
    let x = new_shared("x");
    let y = new_shared("y");
    let mut t = Term::from_symbol(&x);
    t.insert(new_shared("y"), natural(0));
    assert_eq!(t.len(), 2);
    let h = t.hash_entries();
    assert_eq!(h.len(), 1);
    assert_eq!(h[0].0.name(), "x");
    assert!(h[0].1.same(&natural(1)));
    t.remove(&y);
    assert_eq!(t.len(), 1);
}

#[test]
fn monomial_and_polynomial_text() {
    let xy = Term::from_symbol(&new_shared("x")).mul(&Term::from_symbol(&new_shared("y")));
    assert_eq!(xy.to_text::<Rational>(), "x*y");
    let p = Polynomial::<Rational>::from_term(&xy).add(&Polynomial::one());
    assert_eq!(p.to_text(), "x*y+1");
}

#[test]
fn constants_convert_between_coefficient_types() {
    let e: Expr<Natural> = Expr::Add(vec![Expr::Const(natural(3)), Expr::Symbol(new_shared("x"))]);
    let r: Expr<Rational> = Expr::convert(&e);
    assert_eq!(r.to_text(), "3+x");
    assert_eq!(Expr::<Rational>::convert(&c(5)).to_text(), "5");
}

#[test]
fn derivative_drops_monomials_without_the_symbol() {
    let x = new_shared("x");
    let p = Polynomial::try_from(&s("y")).unwrap();
    let d = p.diff(&x);
    assert!(d.is_zero());
    assert_eq!(Expr::from_polynomial(&d).to_text(), "0");
    let mut i = interp();
    assert_eq!(run(&mut i, "diff(x*y + y, x)").unwrap(), Some("y".to_string()));
    assert_eq!(run(&mut i, "diff(y, x)").unwrap(), Some("0".to_string()));
}

#[test]
fn regard_as_adds_coinciding_coefficients() {
    let x = new_shared("x");
    let e = Expr::Add(vec![Expr::Mul(vec![s("x"), s("y")]), Expr::Mul(vec![s("x"), s("z")])]);
    let r = Polynomial::try_from(&e).unwrap().regard_as(&x);
    assert_eq!(r.0.len(), 2);
    let (t, coef) = r.0.entry(1);
    assert!(t.degree(&x).same(&natural(1)));
    assert_eq!(t.len(), 1);
    assert_eq!(coef.to_text(), "y+z");
    assert_eq!(r.leading_coef(&x).to_text(), "y+z");
}
