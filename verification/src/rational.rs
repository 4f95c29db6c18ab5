use crate::coef::{Coefficient, Scalar};
use crate::depth::add_depth;
use crate::expr::{expr_view, Expr, SExpr};
use crate::natural::{le_value, Natural};
use bigdecimal::BigDecimal;
use num::{BigInt, BigRational, BigUint};
use std::str::FromStr;
use vstd::prelude::*;

verus! {

/// `256^n`.
pub open spec fn pow256(n: nat) -> nat
    decreases n,
{
    if n == 0 {
        1
    } else {
        256 * pow256((n - 1) as nat)
    }
}

/// The value of little-endian two's-complement bytes.
pub open spec fn le_signed(s: Seq<u8>) -> int {
    if s.len() > 0 && s[s.len() - 1] >= 128 {
        le_value(s) - pow256(s.len())
    } else {
        le_value(s) as int
    }
}

pub open spec fn abs(i: int) -> nat {
    if i < 0 {
        (-i) as nat
    } else {
        i as nat
    }
}

/// The greatest common divisor, by Euclid's algorithm.
pub open spec fn gcd(a: nat, b: nat) -> nat
    decreases b,
{
    if b == 0 {
        a
    } else {
        gcd(b, a % b)
    }
}

/// A fraction in lowest terms with a positive denominator.
pub open spec fn is_reduced(q: (int, int)) -> bool {
    q.1 > 0 && gcd(abs(q.0), abs(q.1)) == 1
}

/// The fraction `n/d`, `d` not zero, in lowest terms with a positive
/// denominator.
pub open spec fn reduce(n: int, d: int) -> (int, int) {
    let g = gcd(abs(n), abs(d)) as int;
    if d / g < 0 {
        (-(n / g), -(d / g))
    } else {
        (n / g, d / g)
    }
}

/// A fraction raised to the integer power `k`: numerator and denominator
/// raised to `|k|`, swapped for a negative `k` with the sign moved to the
/// numerator; zero may not be raised to a negative power.
pub open spec fn rational_power(q: (int, int), k: int) -> (int, int) {
    if k >= 0 {
        (vstd::arithmetic::power::pow(q.0, k as nat), vstd::arithmetic::power::pow(q.1, k as nat))
    } else {
        let a = vstd::arithmetic::power::pow(q.0, (-k) as nat);
        let b = vstd::arithmetic::power::pow(q.1, (-k) as nat);
        if a > 0 {
            (b, a)
        } else {
            (-b, -a)
        }
    }
}

/// Whether a constant can be raised to `e` by arithmetic: `e` is an integer
/// that fits in `i32`, and not negative where the base is zero.
pub open spec fn power_computable(base: (int, int), e: (int, int)) -> bool {
    e.1 == 1 && i32::MIN <= e.0 <= i32::MAX && !(base.0 == 0 && e.0 < 0)
}

/// The decimal digit of `d < 10`.
pub open spec fn digit_char(d: nat) -> char {
    if d == 0 {
        '0'
    } else if d == 1 {
        '1'
    } else if d == 2 {
        '2'
    } else if d == 3 {
        '3'
    } else if d == 4 {
        '4'
    } else if d == 5 {
        '5'
    } else if d == 6 {
        '6'
    } else if d == 7 {
        '7'
    } else if d == 8 {
        '8'
    } else {
        '9'
    }
}

/// The decimal digits of `n`.
pub open spec fn nat_text(n: nat) -> Seq<char>
    decreases n,
{
    if n < 10 {
        seq![digit_char(n)]
    } else {
        nat_text(n / 10).push(digit_char(n % 10))
    }
}

/// An integer in decimal, with a leading `-` when negative.
pub open spec fn int_text(i: int) -> Seq<char> {
    if i < 0 {
        seq!['-'] + nat_text(abs(i))
    } else {
        nat_text(abs(i))
    }
}

/// A fraction as `num::BigRational` prints it: the numerator alone when the
/// denominator is one, else `numerator/denominator`.
pub open spec fn rational_text(q: (int, int)) -> Seq<char> {
    if q.1 == 1 {
        int_text(q.0)
    } else {
        int_text(q.0) + seq!['/'] + int_text(q.1)
    }
}

/// The value of a numeral of ASCII decimal digits and `_` separators, the
/// separators skipped.
pub open spec fn digits_value(s: Seq<char>) -> nat
    decreases s.len(),
{
    if s.len() == 0 {
        0
    } else {
        let v = digits_value(s.subrange(0, s.len() - 1));
        let c = s[s.len() - 1];
        if c == '_' {
            v
        } else {
            (v * 10 + (c as int - '0' as int)) as nat
        }
    }
}

/// Whether `s` is what `BigUint::from_str` reads as digits: not empty, not
/// starting with `_`, and made of ASCII decimal digits and `_`.
pub open spec fn unsigned_digits(s: Seq<char>) -> bool {
    &&& s.len() > 0
    &&& s[0] != '_'
    &&& forall|i: int| 0 <= i < s.len() ==> ('0' <= #[trigger] s[i] <= '9' || s[i] == '_')
}

/// What `BigUint::from_str` makes of a string: one leading `+` is dropped
/// unless another `+` follows it, and the rest must be digits.
pub open spec fn unsigned_of_text(s: Seq<char>) -> Option<nat> {
    let u = if s.len() > 0 && s[0] == '+' && !(s.len() > 1 && s[1] == '+') {
        s.subrange(1, s.len() as int)
    } else {
        s
    };
    if unsigned_digits(u) {
        Some(digits_value(u))
    } else {
        None
    }
}

/// What `BigInt::from_str` makes of a string: a leading `-` negates what
/// follows it (a `-` followed by `+` is refused), anything else is read as
/// unsigned.
pub open spec fn integer_of_text(s: Seq<char>) -> Option<int> {
    if s.len() > 0 && s[0] == '-' {
        if s.len() > 1 && s[1] == '+' {
            None
        } else {
            match unsigned_of_text(s.subrange(1, s.len() as int)) {
                Some(v) => Some(-v),
                None => None,
            }
        }
    } else {
        match unsigned_of_text(s) {
            Some(v) => Some(v as int),
            None => None,
        }
    }
}

/// The position of the first `/`, if any.
pub open spec fn first_slash(s: Seq<char>, i: int) -> Option<int>
    decreases s.len() - i,
{
    if i < 0 || i >= s.len() {
        None
    } else if s[i] == '/' {
        Some(i)
    } else {
        first_slash(s, i + 1)
    }
}

/// What `BigRational::from_str` makes of a string: the integer before the
/// first `/` over the integer after it (one where there is no `/`), in
/// lowest terms; nothing where either part is not an integer or the
/// denominator is zero.
pub open spec fn fraction_of_text(s: Seq<char>) -> Option<(int, int)> {
    let (n, d) = match first_slash(s, 0) {
        Some(k) => (s.subrange(0, k), s.subrange(k + 1, s.len() as int)),
        None => (s, seq!['1']),
    };
    match (integer_of_text(n), integer_of_text(d)) {
        (Some(a), Some(b)) => if b != 0 {
            Some(reduce(a, b))
        } else {
            None
        },
        _ => None,
    }
}

/// The integer mantissa of the `BigDecimal` quotient `n / d`. The quotient
/// is rounded to the precision bigdecimal was built with (an environment
/// variable read when the crate is compiled, one hundred digits by
/// default), so the name stands for the division of the build in use.
pub uninterp spec fn decimal_quotient(n: int, d: int) -> int;

/// The natural number `BigUint::try_from` makes of the mantissa of the
/// `BigDecimal` quotient of a fraction: for an integer, the integer where it
/// is not negative; for any other fraction as `decimal_quotient` says. The
/// decimal point is dropped, not applied: `1/2` (0.5) gives 5 and `7/2`
/// (3.5) gives 35.
pub open spec fn natural_of_fraction(a: (int, int)) -> Option<nat> {
    if a.1 == 1 {
        if a.0 >= 0 {
            Some(a.0 as nat)
        } else {
            None
        }
    } else if decimal_quotient(a.0, a.1) >= 0 {
        Some(decimal_quotient(a.0, a.1) as nat)
    } else {
        None
    }
}

/// An exact fraction of arbitrary size, in lowest terms with a positive
/// denominator; numerator and denominator are held as little-endian
/// two's-complement bytes.
pub struct Rational {
    numer: Vec<u8>,
    denom: Vec<u8>,
}

impl View for Rational {
    type V = (int, int);

    closed spec fn view(&self) -> (int, int) {
        (le_signed(self.numer@), le_signed(self.denom@))
    }
}

impl Rational {
    #[verifier::type_invariant]
    spec fn inv(self) -> bool {
        is_reduced(self@)
    }

    /// The fraction with the given numerator and denominator bytes.
    fn from_parts(numer: Vec<u8>, denom: Vec<u8>) -> (r: Rational)
        requires
            is_reduced((le_signed(numer@), le_signed(denom@))),
        ensures
            r@ == (le_signed(numer@), le_signed(denom@)),
    {
        Rational { numer, denom }
    }

    /// The integer `i`.
    pub fn from_integer(i: i64) -> (r: Rational)
        ensures
            r@ == (i as int, 1int),
    {
        proof {
            lemma_gcd_one(abs(i as int));
        }
        Rational::from_parts(i64_bytes(i), one_bytes())
    }

    /// The natural number `n`.
    pub fn from_natural_number(n: &Natural) -> (r: Rational)
        ensures
            r@ == (n@ as int, 1int),
    {
        proof {
            lemma_gcd_one(n@);
        }
        Rational::from_parts(unsigned_to_signed(&n.to_bytes()), one_bytes())
    }

    /// Parses `numerator/denominator` or `numerator` as `BigRational` does.
    pub fn parse(s: &str) -> (r: Option<Rational>)
        ensures
            r is Some <==> fraction_of_text(s@) is Some,
            r matches Some(q) ==> Some(q@) == fraction_of_text(s@),
    {
        match fraction_from_str(s) {
            Some((n, d)) => Some(Rational::from_parts(n, d)),
            None => None,
        }
    }

    /// The quotient; the divisor may not be zero.
    pub fn divided_by(&self, other: &Rational) -> (r: Rational)
        requires
            other@.0 != 0,
        ensures
            r@ == reduce(self@.0 * other@.1, self@.1 * other@.0),
    {
        proof {
            use_type_invariant(self);
            use_type_invariant(other);
        }
        let (n, d) = fraction_div(&self.numer, &self.denom, &other.numer, &other.denom);
        Rational::from_parts(n, d)
    }
}

/// A fraction in lowest terms is its own reduced form.
proof fn lemma_reduce_reduced(q: (int, int))
    requires
        is_reduced(q),
    ensures
        reduce(q.0, q.1) == q,
{
    assert(q.0 / 1 == q.0);
    assert(q.1 / 1 == q.1);
}

/// Arithmetic on fractions in lowest terms: sums and products do not depend
/// on the order of their operands, zero and one are neutral, and a
/// fraction minus itself is zero.
pub proof fn law_rational_arithmetic(a: (int, int), b: (int, int))
    requires
        is_reduced(a),
        is_reduced(b),
    ensures
        <Rational as Scalar>::add_v(a, b) == <Rational as Scalar>::add_v(b, a),
        <Rational as Scalar>::mul_v(a, b) == <Rational as Scalar>::mul_v(b, a),
        <Rational as Scalar>::add_v(a, <Rational as Scalar>::zero_v()) == a,
        <Rational as Scalar>::mul_v(a, <Rational as Scalar>::one_v()) == a,
        <Rational as Scalar>::sub_v(a, a) == <Rational as Scalar>::zero_v(),
{
    assert(a.0 * b.1 + b.0 * a.1 == b.0 * a.1 + a.0 * b.1);
    assert(a.1 * b.1 == b.1 * a.1) by (nonlinear_arith);
    assert(a.0 * b.0 == b.0 * a.0) by (nonlinear_arith);
    assert(a.0 * 1 + 0 * a.1 == a.0);
    assert(a.1 * 1 == a.1);
    assert(a.0 * 1 == a.0);
    lemma_reduce_reduced(a);
    let d2 = a.1 * a.1;
    assert(d2 > 0) by (nonlinear_arith)
        requires
            a.1 > 0,
            d2 == a.1 * a.1,
    ;
    assert(a.0 * a.1 - a.0 * a.1 == 0);
    lemma_gcd_zero(abs(d2));
    assert(d2 / d2 == 1) by (nonlinear_arith)
        requires
            d2 > 0,
    ;
    assert(0int / d2 == 0) by (nonlinear_arith)
        requires
            d2 > 0,
    ;
}

proof fn lemma_gcd_one(n: nat)
    ensures
        gcd(n, 1) == 1,
{
    assert(n % 1 == 0);
    assert(gcd(1, 0) == 1);
}

proof fn lemma_gcd_zero(d: nat)
    ensures
        gcd(0, d) == d,
{
    if d > 0 {
        assert(0nat % d == 0);
        assert(gcd(d, 0) == d);
    }
}

proof fn lemma_gcd_self(d: nat)
    ensures
        gcd(d, d) == d,
{
    if d > 0 {
        assert(d % d == 0) by (nonlinear_arith)
            requires
                d > 0,
        ;
        assert(gcd(d, 0) == d);
    }
}

/// Bytes of one.
fn one_bytes() -> (r: Vec<u8>)
    ensures
        le_signed(r@) == 1,
{
    let mut v: Vec<u8> = Vec::new();
    v.push(1);
    proof {
        assert(v@.drop_first() =~= Seq::<u8>::empty());
        assert(le_value(v@.drop_first()) == 0);
        assert(le_value(v@) == 1);
    }
    v
}

impl Scalar for Rational {
    open spec fn zero_v() -> (int, int) {
        (0, 1)
    }

    open spec fn one_v() -> (int, int) {
        (1, 1)
    }

    open spec fn add_v(a: (int, int), b: (int, int)) -> (int, int) {
        reduce(a.0 * b.1 + b.0 * a.1, a.1 * b.1)
    }

    open spec fn sub_v(a: (int, int), b: (int, int)) -> (int, int) {
        reduce(a.0 * b.1 - b.0 * a.1, a.1 * b.1)
    }

    open spec fn mul_v(a: (int, int), b: (int, int)) -> (int, int) {
        reduce(a.0 * b.0, a.1 * b.1)
    }

    open spec fn neg_v(a: (int, int)) -> (int, int) {
        (-a.0, a.1)
    }

    fn zero() -> (r: Rational) {
        proof {
            lemma_gcd_one(0);
            assert(le_value(Seq::<u8>::empty()) == 0);
        }
        Rational::from_parts(Vec::new(), one_bytes())
    }

    fn one() -> (r: Rational) {
        proof {
            lemma_gcd_one(1);
        }
        Rational::from_parts(one_bytes(), one_bytes())
    }

    fn is_zero(&self) -> (r: bool) {
        proof {
            use_type_invariant(self);
            lemma_gcd_zero(abs(self@.1));
        }
        let z: Vec<u8> = Vec::new();
        proof {
            assert(le_value(z@) == 0);
        }
        signed_eq(&self.numer, &z)
    }

    fn is_one(&self) -> (r: bool) {
        proof {
            use_type_invariant(self);
            lemma_gcd_self(abs(self@.1));
        }
        signed_eq(&self.numer, &self.denom)
    }

    fn same(&self, other: &Rational) -> (r: bool) {
        signed_eq(&self.numer, &other.numer) && signed_eq(&self.denom, &other.denom)
    }

    fn duplicate(&self) -> (r: Rational) {
        proof {
            use_type_invariant(self);
        }
        Rational::from_parts(self.numer.clone(), self.denom.clone())
    }

    fn plus(&self, other: &Rational) -> (r: Rational) {
        proof {
            use_type_invariant(self);
            use_type_invariant(other);
        }
        let (n, d) = fraction_add(&self.numer, &self.denom, &other.numer, &other.denom);
        Rational::from_parts(n, d)
    }

    fn minus(&self, other: &Rational) -> (r: Rational) {
        proof {
            use_type_invariant(self);
            use_type_invariant(other);
        }
        let (n, d) = fraction_sub(&self.numer, &self.denom, &other.numer, &other.denom);
        Rational::from_parts(n, d)
    }

    fn times(&self, other: &Rational) -> (r: Rational) {
        proof {
            use_type_invariant(self);
            use_type_invariant(other);
        }
        let (n, d) = fraction_mul(&self.numer, &self.denom, &other.numer, &other.denom);
        Rational::from_parts(n, d)
    }

    fn negated(&self) -> (r: Rational) {
        proof {
            use_type_invariant(self);
        }
        Rational::from_parts(signed_neg(&self.numer), self.denom.clone())
    }

    open spec fn text_v(a: (int, int)) -> Seq<char> {
        rational_text(a)
    }

    fn text(&self) -> (r: String) {
        proof {
            use_type_invariant(self);
        }
        fraction_text(&self.numer, &self.denom)
    }
}

impl Coefficient for Rational {
    /// A constant raised to an integer constant that fits in `i32` is
    /// computed (zero to a negative power excepted); any other power stays.
    open spec fn pow_v(base: (int, int), exp: SExpr<(int, int)>) -> SExpr<(int, int)> {
        match exp {
            SExpr::Const(e) => if power_computable(base, e) {
                SExpr::Const(rational_power(base, e.0))
            } else {
                SExpr::Pow(Box::new(SExpr::Const(base)), Box::new(exp))
            },
            _ => SExpr::Pow(Box::new(SExpr::Const(base)), Box::new(exp)),
        }
    }

    open spec fn from_nat_v(n: nat) -> (int, int) {
        (n as int, 1)
    }

    open spec fn to_nat_v(a: (int, int)) -> Option<nat> {
        natural_of_fraction(a)
    }

    proof fn lemma_pow_shape(base: (int, int), exp: SExpr<(int, int)>) {
        reveal_with_fuel(add_depth, 2);
    }

    fn pow_expr(&self, exp: Expr<Rational>) -> (r: Expr<Rational>) {
        proof {
            use_type_invariant(self);
            lemma_gcd_zero(abs(self@.1));
        }
        if let Expr::Const(e) = &exp {
            proof {
                use_type_invariant(e);
            }
            if signed_eq(&e.denom, &one_bytes()) {
                if let Some(k) = signed_to_i32(&e.numer) {
                    if !(k < 0 && self.is_zero()) {
                        let (n, d) = fraction_pow(&self.numer, &self.denom, k);
                        return Expr::Const(Rational::from_parts(n, d));
                    }
                }
            }
        }
        let r = Expr::Pow(Box::new(Expr::Const(self.duplicate())), Box::new(exp));
        proof {
            reveal_with_fuel(expr_view, 2);
        }
        r
    }

    fn from_natural(n: &Natural) -> (r: Rational) {
        Rational::from_natural_number(n)
    }

    open spec fn from_text_v(s: Seq<char>) -> Option<(int, int)> {
        fraction_of_text(s)
    }

    fn from_text(s: &str) -> (r: Option<Rational>) {
        Rational::parse(s)
    }

    fn to_natural(&self) -> (r: Option<Natural>) {
        proof {
            use_type_invariant(self);
        }
        match fraction_to_unsigned(&self.numer, &self.denom) {
            Some(b) => Some(Natural::from_bytes(b)),
            None => None,
        }
    }
}

/// `BigInt::from(i64)`, as two's-complement bytes.
#[verifier::external_body]
fn i64_bytes(i: i64) -> (r: Vec<u8>)
    ensures
        le_signed(r@) == i,
{
    BigInt::from(i).to_signed_bytes_le()
}

/// `BigInt::from(BigUint)`: unsigned bytes to two's-complement bytes.
#[verifier::external_body]
fn unsigned_to_signed(b: &Vec<u8>) -> (r: Vec<u8>)
    ensures
        le_signed(r@) == le_value(b@),
{
    BigInt::from(BigUint::from_bytes_le(b)).to_signed_bytes_le()
}

/// `BigInt == BigInt`, on two's-complement bytes.
#[verifier::external_body]
fn signed_eq(a: &Vec<u8>, b: &Vec<u8>) -> (r: bool)
    ensures
        r == (le_signed(a@) == le_signed(b@)),
{
    BigInt::from_signed_bytes_le(a) == BigInt::from_signed_bytes_le(b)
}

/// `i32::try_from(BigInt)`, on two's-complement bytes: the value where it
/// fits in `i32`.
#[verifier::external_body]
fn signed_to_i32(a: &Vec<u8>) -> (r: Option<i32>)
    ensures
        r is Some <==> i32::MIN <= le_signed(a@) <= i32::MAX,
        r matches Some(k) ==> k == le_signed(a@),
{
    i32::try_from(BigInt::from_signed_bytes_le(a)).ok()
}

/// `BigRational::pow(i32)` of a fraction in lowest terms built by
/// `Ratio::new`; the power of a fraction in lowest terms is again in lowest
/// terms. Zero is not raised to a negative power (the call would panic).
#[verifier::external_body]
fn fraction_pow(n: &Vec<u8>, d: &Vec<u8>, k: i32) -> (r: (Vec<u8>, Vec<u8>))
    requires
        is_reduced((le_signed(n@), le_signed(d@))),
        !(le_signed(n@) == 0 && k < 0),
    ensures
        (le_signed(r.0@), le_signed(r.1@)) == rational_power((le_signed(n@), le_signed(d@)), k as int),
        is_reduced((le_signed(r.0@), le_signed(r.1@))),
{
    let x = BigRational::new(BigInt::from_signed_bytes_le(n), BigInt::from_signed_bytes_le(d)).pow(k);
    (x.numer().to_signed_bytes_le(), x.denom().to_signed_bytes_le())
}

/// `-BigInt`, on two's-complement bytes.
#[verifier::external_body]
fn signed_neg(a: &Vec<u8>) -> (r: Vec<u8>)
    ensures
        le_signed(r@) == -le_signed(a@),
{
    (-BigInt::from_signed_bytes_le(a)).to_signed_bytes_le()
}

/// `BigRational + BigRational`, each side built by `Ratio::new` from
/// two's-complement numerator and denominator bytes; the sum comes back in
/// lowest terms with a positive denominator.
#[verifier::external_body]
fn fraction_add(an: &Vec<u8>, ad: &Vec<u8>, bn: &Vec<u8>, bd: &Vec<u8>) -> (r: (Vec<u8>, Vec<u8>))
    requires
        le_signed(ad@) > 0,
        le_signed(bd@) > 0,
    ensures
        (le_signed(r.0@), le_signed(r.1@)) == reduce(
            le_signed(an@) * le_signed(bd@) + le_signed(bn@) * le_signed(ad@),
            le_signed(ad@) * le_signed(bd@),
        ),
        is_reduced((le_signed(r.0@), le_signed(r.1@))),
{
    let x = BigRational::new(BigInt::from_signed_bytes_le(an), BigInt::from_signed_bytes_le(ad))
        + BigRational::new(BigInt::from_signed_bytes_le(bn), BigInt::from_signed_bytes_le(bd));
    (x.numer().to_signed_bytes_le(), x.denom().to_signed_bytes_le())
}

/// `BigRational - BigRational`, as `fraction_add` builds and returns them.
#[verifier::external_body]
fn fraction_sub(an: &Vec<u8>, ad: &Vec<u8>, bn: &Vec<u8>, bd: &Vec<u8>) -> (r: (Vec<u8>, Vec<u8>))
    requires
        le_signed(ad@) > 0,
        le_signed(bd@) > 0,
    ensures
        (le_signed(r.0@), le_signed(r.1@)) == reduce(
            le_signed(an@) * le_signed(bd@) - le_signed(bn@) * le_signed(ad@),
            le_signed(ad@) * le_signed(bd@),
        ),
        is_reduced((le_signed(r.0@), le_signed(r.1@))),
{
    let x = BigRational::new(BigInt::from_signed_bytes_le(an), BigInt::from_signed_bytes_le(ad))
        - BigRational::new(BigInt::from_signed_bytes_le(bn), BigInt::from_signed_bytes_le(bd));
    (x.numer().to_signed_bytes_le(), x.denom().to_signed_bytes_le())
}

/// `BigRational * BigRational`, as `fraction_add` builds and returns them.
#[verifier::external_body]
fn fraction_mul(an: &Vec<u8>, ad: &Vec<u8>, bn: &Vec<u8>, bd: &Vec<u8>) -> (r: (Vec<u8>, Vec<u8>))
    requires
        le_signed(ad@) > 0,
        le_signed(bd@) > 0,
    ensures
        (le_signed(r.0@), le_signed(r.1@)) == reduce(
            le_signed(an@) * le_signed(bn@),
            le_signed(ad@) * le_signed(bd@),
        ),
        is_reduced((le_signed(r.0@), le_signed(r.1@))),
{
    let x = BigRational::new(BigInt::from_signed_bytes_le(an), BigInt::from_signed_bytes_le(ad))
        * BigRational::new(BigInt::from_signed_bytes_le(bn), BigInt::from_signed_bytes_le(bd));
    (x.numer().to_signed_bytes_le(), x.denom().to_signed_bytes_le())
}

/// `BigRational / BigRational`, as `fraction_add` builds and returns them;
/// it panics on a zero divisor.
#[verifier::external_body]
fn fraction_div(an: &Vec<u8>, ad: &Vec<u8>, bn: &Vec<u8>, bd: &Vec<u8>) -> (r: (Vec<u8>, Vec<u8>))
    requires
        le_signed(ad@) > 0,
        le_signed(bd@) > 0,
        le_signed(bn@) != 0,
    ensures
        (le_signed(r.0@), le_signed(r.1@)) == reduce(
            le_signed(an@) * le_signed(bd@),
            le_signed(ad@) * le_signed(bn@),
        ),
        is_reduced((le_signed(r.0@), le_signed(r.1@))),
{
    let x = BigRational::new(BigInt::from_signed_bytes_le(an), BigInt::from_signed_bytes_le(ad))
        / BigRational::new(BigInt::from_signed_bytes_le(bn), BigInt::from_signed_bytes_le(bd));
    (x.numer().to_signed_bytes_le(), x.denom().to_signed_bytes_le())
}

/// `BigRational::from_str`: numerator and denominator bytes of the parsed
/// fraction, which `Ratio::new` leaves in lowest terms.
#[verifier::external_body]
fn fraction_from_str(s: &str) -> (r: Option<(Vec<u8>, Vec<u8>)>)
    ensures
        r is Some <==> fraction_of_text(s@) is Some,
        r matches Some(p) ==> fraction_of_text(s@) == Some((le_signed(p.0@), le_signed(p.1@))),
        r matches Some(p) ==> is_reduced((le_signed(p.0@), le_signed(p.1@))),
{
    match BigRational::from_str(s) {
        Ok(x) => Some((x.numer().to_signed_bytes_le(), x.denom().to_signed_bytes_le())),
        Err(_) => None,
    }
}

/// `format!("{}", BigRational)` of a fraction in lowest terms.
#[verifier::external_body]
fn fraction_text(n: &Vec<u8>, d: &Vec<u8>) -> (r: String)
    requires
        is_reduced((le_signed(n@), le_signed(d@))),
    ensures
        r@ == rational_text((le_signed(n@), le_signed(d@))),
{
    format!("{}", BigRational::new(BigInt::from_signed_bytes_le(n), BigInt::from_signed_bytes_le(d)))
}

/// `BigUint::try_from` the mantissa of the `BigDecimal` quotient of
/// numerator by denominator, as unsigned bytes; it fails on a negative
/// mantissa. Where the denominator is one the quotient is the numerator.
#[verifier::external_body]
fn fraction_to_unsigned(n: &Vec<u8>, d: &Vec<u8>) -> (r: Option<Vec<u8>>)
    requires
        le_signed(d@) > 0,
    ensures
        le_signed(d@) == 1 ==> (r is Some <==> le_signed(n@) >= 0),
        le_signed(d@) == 1 ==> (r matches Some(b) ==> le_value(b@) == le_signed(n@)),
        le_signed(d@) != 1 ==> (r is Some <==> decimal_quotient(le_signed(n@), le_signed(d@)) >= 0),
        le_signed(d@) != 1 ==> (r matches Some(b) ==> le_value(b@) == decimal_quotient(le_signed(n@), le_signed(d@))),
{
    let q = (BigDecimal::from(BigInt::from_signed_bytes_le(n)) / BigDecimal::from(BigInt::from_signed_bytes_le(d)))
        .into_bigint_and_exponent().0;
    match BigUint::try_from(q) {
        Ok(u) => Some(u.to_bytes_le()),
        Err(_) => None,
    }
}

} // verus!
