//! Exact rational numbers in lowest terms over `i64`. The arithmetic is done
//! by `num_rational::Ratio<i64>`; this module guards each call against
//! overflow and states what comes back.

use vstd::prelude::*;
use num_rational::Ratio;
use crate::lowest_terms::{
    abs, gcd, is_lowest, lemma_gcd_positive, lemma_integer_is_lowest, lemma_lowest_form,
    lemma_lowest_is, lemma_lowest_unique, lowest_den, lowest_num,
};

verus! {

/// A fraction `numer / denom`. A well-formed value is in lowest terms with a
/// positive denominator, so equal values are equal field by field.
#[derive(Clone, Copy, Debug, PartialEq, Eq, Structural, Hash)]
pub struct Rational {
    pub numer: i64,
    pub denom: i64,
}

/// Whether `x` is within the magnitude that a numerator or denominator may
/// have: up to `i64::MAX` either way.
pub open spec fn fits(x: int) -> bool {
    -i64::MAX <= x <= i64::MAX
}

impl View for Rational {
    type V = real;

    /// The number that the fraction stands for.
    open spec fn view(&self) -> real {
        self.numer as real / self.denom as real
    }
}

impl Rational {
    /// Lowest terms, positive denominator, and a numerator that can be negated.
    pub open spec fn wf(self) -> bool {
        is_lowest(self.numer as int, self.denom as int) && self.numer > i64::MIN
    }

    /// `n / d` in lowest terms, for `d > 0` and a result that fits.
    pub open spec fn lowest(n: int, d: int) -> Rational {
        Rational { numer: lowest_num(n, d) as i64, denom: lowest_den(n, d) as i64 }
    }

    /// What `new` returns: nothing for a zero denominator or a component that
    /// cannot be negated, else the fraction in lowest terms.
    pub open spec fn spec_new(numer: i64, denom: i64) -> Option<Rational> {
        if denom == 0 || numer == i64::MIN || denom == i64::MIN {
            None
        } else if denom > 0 {
            Some(Rational::lowest(numer as int, denom as int))
        } else {
            Some(Rational::lowest(-numer, -denom))
        }
    }

    /// The cross products of a sum or difference and the common denominator
    /// all fit.
    pub open spec fn add_fits(self, rhs: Rational) -> bool {
        &&& fits(self.numer * rhs.denom)
        &&& fits(rhs.numer * self.denom)
        &&& fits(self.numer * rhs.denom + rhs.numer * self.denom)
        &&& fits(self.denom * rhs.denom)
    }

    /// The cross products of a difference, their difference and the common
    /// denominator all fit.
    pub open spec fn sub_fits(self, rhs: Rational) -> bool {
        &&& fits(self.numer * rhs.denom)
        &&& fits(rhs.numer * self.denom)
        &&& fits(self.numer * rhs.denom - rhs.numer * self.denom)
        &&& fits(self.denom * rhs.denom)
    }

    /// The product of the numerators and that of the denominators fit.
    pub open spec fn mul_fits(self, rhs: Rational) -> bool {
        &&& fits(self.numer * rhs.numer)
        &&& fits(self.denom * rhs.denom)
    }

    /// The divisor is not zero and the two cross products fit.
    pub open spec fn div_fits(self, rhs: Rational) -> bool {
        &&& rhs.numer != 0
        &&& fits(self.numer * rhs.denom)
        &&& fits(self.denom * rhs.numer)
    }

    /// The sum in lowest terms, where the cross products fit.
    pub open spec fn spec_checked_add(self, rhs: Rational) -> Option<Rational> {
        if self.add_fits(rhs) {
            Some(
                Rational::lowest(
                    self.numer * rhs.denom + rhs.numer * self.denom,
                    self.denom * rhs.denom,
                ),
            )
        } else {
            None
        }
    }

    /// The difference in lowest terms, where the cross products fit.
    pub open spec fn spec_checked_sub(self, rhs: Rational) -> Option<Rational> {
        if self.sub_fits(rhs) {
            Some(
                Rational::lowest(
                    self.numer * rhs.denom - rhs.numer * self.denom,
                    self.denom * rhs.denom,
                ),
            )
        } else {
            None
        }
    }

    /// The product in lowest terms, where the products of the parts fit.
    pub open spec fn spec_checked_mul(self, rhs: Rational) -> Option<Rational> {
        if self.mul_fits(rhs) {
            Some(Rational::lowest(self.numer * rhs.numer, self.denom * rhs.denom))
        } else {
            None
        }
    }

    /// The quotient in lowest terms with a positive denominator, for a divisor
    /// other than zero and where the cross products fit.
    pub open spec fn spec_checked_div(self, rhs: Rational) -> Option<Rational> {
        if !self.div_fits(rhs) {
            None
        } else if rhs.numer > 0 {
            Some(Rational::lowest(self.numer * rhs.denom, self.denom * rhs.numer))
        } else {
            Some(Rational::lowest(-(self.numer * rhs.denom), -(self.denom * rhs.numer)))
        }
    }

    /// Zero in lowest terms.
    pub open spec fn spec_zero() -> Rational {
        Rational { numer: 0, denom: 1 }
    }

    /// The fraction without its sign.
    pub open spec fn spec_abs(self) -> Rational {
        if self.numer < 0 {
            Rational { numer: (-self.numer) as i64, denom: self.denom }
        } else {
            self
        }
    }
}

/// Calls `Ratio::new`, which puts a fraction into lowest terms with a
/// positive denominator. Believed: the result is in lowest terms and has the
/// value `numer / denom`.
#[verifier::external_body]
fn ratio_new(numer: i64, denom: i64) -> (r: Rational)
    requires
        denom != 0,
        numer > i64::MIN,
        denom > i64::MIN,
    ensures
        r.wf(),
        r.numer * denom == numer * r.denom,
{
    let q = Ratio::new(numer, denom);
    Rational { numer: *q.numer(), denom: *q.denom() }
}

/// Calls `+` of `Ratio<i64>`. Believed: where the cross products fit, the
/// result is in lowest terms and is the sum.
#[verifier::external_body]
fn ratio_add(a: Rational, b: Rational) -> (r: Rational)
    requires
        a.wf(),
        b.wf(),
        a.add_fits(b),
    ensures
        r.wf(),
        r.numer * (a.denom * b.denom) == (a.numer * b.denom + b.numer * a.denom) * r.denom,
{
    let q = Ratio::new_raw(a.numer, a.denom) + Ratio::new_raw(b.numer, b.denom);
    Rational { numer: *q.numer(), denom: *q.denom() }
}

/// Calls `-` of `Ratio<i64>`. Believed: where the cross products fit, the
/// result is in lowest terms and is the difference.
#[verifier::external_body]
fn ratio_sub(a: Rational, b: Rational) -> (r: Rational)
    requires
        a.wf(),
        b.wf(),
        a.sub_fits(b),
    ensures
        r.wf(),
        r.numer * (a.denom * b.denom) == (a.numer * b.denom - b.numer * a.denom) * r.denom,
{
    let q = Ratio::new_raw(a.numer, a.denom) - Ratio::new_raw(b.numer, b.denom);
    Rational { numer: *q.numer(), denom: *q.denom() }
}

/// Calls `*` of `Ratio<i64>`. Believed: where the products of the numerators
/// and of the denominators fit, the result is in lowest terms and is the
/// product.
#[verifier::external_body]
fn ratio_mul(a: Rational, b: Rational) -> (r: Rational)
    requires
        a.wf(),
        b.wf(),
        a.mul_fits(b),
    ensures
        r.wf(),
        r.numer * (a.denom * b.denom) == (a.numer * b.numer) * r.denom,
{
    let q = Ratio::new_raw(a.numer, a.denom) * Ratio::new_raw(b.numer, b.denom);
    Rational { numer: *q.numer(), denom: *q.denom() }
}

/// Calls `/` of `Ratio<i64>`. Believed: for a divisor other than zero, where
/// the cross products fit, the result is in lowest terms and is the quotient.
#[verifier::external_body]
fn ratio_div(a: Rational, b: Rational) -> (r: Rational)
    requires
        a.wf(),
        b.wf(),
        a.div_fits(b),
    ensures
        r.wf(),
        r.numer * (a.denom * b.numer) == (a.numer * b.denom) * r.denom,
{
    let q = Ratio::new_raw(a.numer, a.denom) / Ratio::new_raw(b.numer, b.denom);
    Rational { numer: *q.numer(), denom: *q.denom() }
}

/// The value of a fraction is fixed by any fraction `n / d` that it equals
/// by cross multiplication.
pub proof fn lemma_value_of(a: Rational, n: int, d: int)
    requires
        a.denom > 0,
        d > 0,
        a.numer * d == n * a.denom,
    ensures
        a@ == n as real / d as real,
{
    assert(a.numer as real / a.denom as real == n as real / d as real) by (nonlinear_arith)
        requires
            a.denom > 0,
            d > 0,
            a.numer * d == n * a.denom,
    ;
}

/// Values compare as the cross products do.
pub proof fn lemma_value_order(a: Rational, b: Rational)
    requires
        a.denom > 0,
        b.denom > 0,
    ensures
        (a@ < b@) == (a.numer * b.denom < b.numer * a.denom),
        (a@ <= b@) == (a.numer * b.denom <= b.numer * a.denom),
        (a@ == b@) == (a.numer * b.denom == b.numer * a.denom),
        (a@ < 0real) == (a.numer < 0),
        (a@ == 0real) == (a.numer == 0),
{
    let x = a.numer as real / a.denom as real;
    let y = b.numer as real / b.denom as real;
    assert((x < y) == (a.numer * b.denom < b.numer * a.denom)) by (nonlinear_arith)
        requires
            a.denom > 0,
            b.denom > 0,
            x == a.numer as real / a.denom as real,
            y == b.numer as real / b.denom as real,
    ;
    assert((x == y) == (a.numer * b.denom == b.numer * a.denom)) by (nonlinear_arith)
        requires
            a.denom > 0,
            b.denom > 0,
            x == a.numer as real / a.denom as real,
            y == b.numer as real / b.denom as real,
    ;
    assert((x < 0real) == (a.numer < 0) && (x == 0real) == (a.numer == 0)) by (nonlinear_arith)
        requires
            a.denom > 0,
            x == a.numer as real / a.denom as real,
    ;
}

/// Two well-formed fractions with the same value are the same fraction.
pub proof fn lemma_value_unique(a: Rational, b: Rational)
    requires
        a.wf(),
        b.wf(),
        a@ == b@,
    ensures
        a == b,
{
    lemma_value_order(a, b);
    lemma_lowest_unique(a.numer as int, a.denom as int, b.numer as int, b.denom as int);
}

/// `lowest(n, d)` is well formed and has the value `n / d`, where `n` and
/// `d` fit.
pub proof fn lemma_lowest_value(n: int, d: int)
    requires
        d > 0,
        fits(n),
        fits(d),
    ensures
        Rational::lowest(n, d).wf(),
        Rational::lowest(n, d)@ == n as real / d as real,
        Rational::lowest(n, d).numer == lowest_num(n, d),
        Rational::lowest(n, d).denom == lowest_den(n, d),
{
    lemma_lowest_form(n, d);
    lemma_value_of(Rational::lowest(n, d), n, d);
}

/// A well-formed fraction with the value of `n / d` is `lowest(n, d)`.
pub proof fn lemma_is_lowest_of(r: Rational, n: int, d: int)
    requires
        r.wf(),
        d > 0,
        r.numer * d == n * r.denom,
    ensures
        r == Rational::lowest(n, d),
{
    lemma_lowest_is(n, d, r.numer as int, r.denom as int);
}

/// A sum that fits is well formed and is the sum of the values.
pub proof fn lemma_add_value(a: Rational, b: Rational)
    requires
        a.wf(),
        b.wf(),
    ensures
        a.spec_checked_add(b) matches Some(r) ==> r.wf() && r@ == a@ + b@,
{
    if a.add_fits(b) {
        let n = a.numer * b.denom + b.numer * a.denom;
        let d = a.denom * b.denom;
        assert(d > 0) by (nonlinear_arith)
            requires
                d == a.denom * b.denom,
                a.denom > 0,
                b.denom > 0,
        ;
        lemma_lowest_value(n, d);
        assert(n as real / d as real == a@ + b@) by (nonlinear_arith)
            requires
                n == a.numer * b.denom + b.numer * a.denom,
                d == a.denom * b.denom,
                a.denom > 0,
                b.denom > 0,
                a@ == a.numer as real / a.denom as real,
                b@ == b.numer as real / b.denom as real,
        ;
    }
}

/// A difference that fits is well formed and is the difference of the values.
pub proof fn lemma_sub_value(a: Rational, b: Rational)
    requires
        a.wf(),
        b.wf(),
    ensures
        a.spec_checked_sub(b) matches Some(r) ==> r.wf() && r@ == a@ - b@,
{
    if a.sub_fits(b) {
        let n = a.numer * b.denom - b.numer * a.denom;
        let d = a.denom * b.denom;
        assert(d > 0) by (nonlinear_arith)
            requires
                d == a.denom * b.denom,
                a.denom > 0,
                b.denom > 0,
        ;
        lemma_lowest_value(n, d);
        assert(n as real / d as real == a@ - b@) by (nonlinear_arith)
            requires
                n == a.numer * b.denom - b.numer * a.denom,
                d == a.denom * b.denom,
                a.denom > 0,
                b.denom > 0,
                a@ == a.numer as real / a.denom as real,
                b@ == b.numer as real / b.denom as real,
        ;
    }
}

/// A product that fits is well formed and is the product of the values.
pub proof fn lemma_mul_value(a: Rational, b: Rational)
    requires
        a.wf(),
        b.wf(),
    ensures
        a.spec_checked_mul(b) matches Some(r) ==> r.wf() && r@ == a@ * b@,
{
    if a.mul_fits(b) {
        let n = a.numer * b.numer;
        let d = a.denom * b.denom;
        assert(d > 0) by (nonlinear_arith)
            requires
                d == a.denom * b.denom,
                a.denom > 0,
                b.denom > 0,
        ;
        lemma_lowest_value(n, d);
        assert(n as real / d as real == a@ * b@) by (nonlinear_arith)
            requires
                n == a.numer * b.numer,
                d == a.denom * b.denom,
                a.denom > 0,
                b.denom > 0,
                a@ == a.numer as real / a.denom as real,
                b@ == b.numer as real / b.denom as real,
        ;
    }
}

/// A quotient that fits is well formed and is the quotient of the values.
pub proof fn lemma_div_value(a: Rational, b: Rational)
    requires
        a.wf(),
        b.wf(),
    ensures
        a.spec_checked_div(b) matches Some(r) ==> r.wf() && b@ != 0real && r@ == a@ / b@,
        a.spec_checked_div(b) is None ==> !a.div_fits(b),
{
    if a.div_fits(b) {
        let x = a.numer * b.denom;
        let y = a.denom * b.numer;
        let n = if b.numer > 0 { x } else { -x };
        let d = if b.numer > 0 { y } else { -y };
        assert(b.numer > 0 ==> y > 0) by (nonlinear_arith)
            requires
                y == a.denom * b.numer,
                a.denom > 0,
        ;
        assert(b.numer < 0 ==> y < 0) by (nonlinear_arith)
            requires
                y == a.denom * b.numer,
                a.denom > 0,
        ;
        lemma_lowest_value(n, d);
        lemma_value_order(b, b);
        assert(n as real / d as real == a@ / b@) by (nonlinear_arith)
            requires
                x == a.numer * b.denom,
                y == a.denom * b.numer,
                (n == x && d == y) || (n == -x && d == -y),
                d > 0,
                a.denom > 0,
                b.denom > 0,
                b.numer != 0,
                a@ == a.numer as real / a.denom as real,
                b@ == b.numer as real / b.denom as real,
        ;
    }
}

/// Putting `n / d` into lowest terms makes neither part larger and keeps a
/// numerator of zero apart from the others.
pub proof fn lemma_lowest_bounds(n: int, d: int)
    requires
        d > 0,
        fits(n),
        fits(d),
    ensures
        fits(Rational::lowest(n, d).numer as int),
        0 < Rational::lowest(n, d).denom <= d,
        n >= 0 ==> 0 <= Rational::lowest(n, d).numer <= n,
        n <= 0 ==> n <= Rational::lowest(n, d).numer <= 0,
        (Rational::lowest(n, d).numer == 0) == (n == 0),
{
    lemma_lowest_form(n, d);
    let g = gcd(abs(n), d as nat) as int;
    let m = lowest_num(n, d);
    lemma_gcd_positive(abs(n), d as nat);
    assert((m == 0) == (n == 0) && (n >= 0 ==> m >= 0) && (n <= 0 ==> m <= 0)) by (nonlinear_arith)
        requires
            n == m * g,
            g > 0,
    ;
}

/// The fraction that `new` makes is well formed and has the value
/// `numer / denom`.
pub proof fn lemma_new_value(numer: i64, denom: i64)
    ensures
        Rational::spec_new(numer, denom) matches Some(q) ==> q.wf() && denom != 0 && q@
            == numer as real / denom as real,
{
    if denom == 0 || numer == i64::MIN || denom == i64::MIN {
    } else if denom > 0 {
        lemma_lowest_value(numer as int, denom as int);
    } else {
        lemma_lowest_value(-numer, -denom);
        assert((-numer) as real / (-denom) as real == numer as real / denom as real)
            by (nonlinear_arith)
            requires
                denom < 0,
        ;
    }
}

/// The absolute value of a well-formed fraction is well formed and is the
/// absolute value of its value.
pub proof fn lemma_abs_value(a: Rational)
    requires
        a.wf(),
    ensures
        a.spec_abs().wf(),
        a.spec_abs()@ == (if a@ < 0real { -a@ } else { a@ }),
        a.spec_abs()@ >= 0real,
{
    lemma_value_order(a, a);
    let r = a.spec_abs();
    lemma_value_order(r, r);
    if a.numer < 0 {
        assert(r@ == -a@) by (nonlinear_arith)
            requires
                r.numer == -a.numer,
                r.denom == a.denom,
                r.denom > 0,
                r@ == r.numer as real / r.denom as real,
                a@ == a.numer as real / a.denom as real,
        ;
    }
}

/// A whole number over one is well formed and has that number as its value.
pub proof fn lemma_integer_value(n: int)
    requires
        fits(n),
    ensures
        (Rational { numer: n as i64, denom: 1 }).wf(),
        (Rational { numer: n as i64, denom: 1 })@ == n as real,
{
    lemma_integer_is_lowest(n);
    assert(n as real / 1real == n as real) by (nonlinear_arith);
}

/// Addition does not depend on the order of its arguments, whether it fits
/// or not.
pub proof fn lemma_add_commutative(a: Rational, b: Rational)
    ensures
        a.spec_checked_add(b) == b.spec_checked_add(a),
{
    assert(a.denom * b.denom == b.denom * a.denom) by (nonlinear_arith);
}

/// Multiplication does not depend on the order of its arguments, whether it
/// fits or not.
pub proof fn lemma_mul_commutative(a: Rational, b: Rational)
    ensures
        a.spec_checked_mul(b) == b.spec_checked_mul(a),
{
    assert(a.denom * b.denom == b.denom * a.denom) by (nonlinear_arith);
    assert(a.numer * b.numer == b.numer * a.numer) by (nonlinear_arith);
}

/// Zero is the identity of addition, and adding it always fits.
pub proof fn lemma_add_zero(a: Rational)
    requires
        a.wf(),
    ensures
        a.spec_checked_add(Rational::spec_zero()) == Some(a),
        Rational::spec_zero().spec_checked_add(a) == Some(a),
{
    let zero = Rational { numer: 0, denom: 1 };
    lemma_integer_value(0);
    lemma_add_value(a, zero);
    lemma_add_commutative(a, zero);
    assert(a.numer * zero.denom == a.numer && zero.numer * a.denom == 0 && a.denom * zero.denom
        == a.denom) by (nonlinear_arith)
        requires
            zero.numer == 0,
            zero.denom == 1,
    ;
    lemma_value_unique(a.spec_checked_add(zero)->Some_0, a);
}

/// Subtracting a fraction from itself gives zero, where it fits.
pub proof fn lemma_sub_self(a: Rational)
    requires
        a.wf(),
    ensures
        a.spec_checked_sub(a) matches Some(r) ==> r == Rational::spec_zero(),
{
    lemma_integer_value(0);
    lemma_sub_value(a, a);
    if a.spec_checked_sub(a) is Some {
        lemma_value_unique(a.spec_checked_sub(a)->Some_0, Rational { numer: 0, denom: 1 });
    }
}

/// The sum of three fractions added from the left.
pub open spec fn spec_sum_from_left(a: Rational, b: Rational, c: Rational) -> Option<Rational> {
    match a.spec_checked_add(b) {
        Some(ab) => ab.spec_checked_add(c),
        None => None,
    }
}

/// The sum of three fractions added from the right.
pub open spec fn spec_sum_from_right(a: Rational, b: Rational, c: Rational) -> Option<Rational> {
    match b.spec_checked_add(c) {
        Some(bc) => a.spec_checked_add(bc),
        None => None,
    }
}

/// `a` times the sum of `b` and `c`.
pub open spec fn spec_product_of_sum(a: Rational, b: Rational, c: Rational) -> Option<Rational> {
    match b.spec_checked_add(c) {
        Some(bc) => a.spec_checked_mul(bc),
        None => None,
    }
}

/// The sum of `a` times `b` and `a` times `c`.
pub open spec fn spec_sum_of_products(a: Rational, b: Rational, c: Rational) -> Option<Rational> {
    match (a.spec_checked_mul(b), a.spec_checked_mul(c)) {
        (Some(ab), Some(ac)) => ab.spec_checked_add(ac),
        _ => None,
    }
}

/// Addition is associative wherever both ways of adding fit.
pub proof fn lemma_add_associative(a: Rational, b: Rational, c: Rational)
    requires
        a.wf(),
        b.wf(),
        c.wf(),
        spec_sum_from_left(a, b, c) is Some,
        spec_sum_from_right(a, b, c) is Some,
    ensures
        spec_sum_from_left(a, b, c) == spec_sum_from_right(a, b, c),
{
    lemma_add_value(a, b);
    lemma_add_value(b, c);
    let ab = a.spec_checked_add(b)->Some_0;
    let bc = b.spec_checked_add(c)->Some_0;
    lemma_add_value(ab, c);
    lemma_add_value(a, bc);
    lemma_value_unique(ab.spec_checked_add(c)->Some_0, a.spec_checked_add(bc)->Some_0);
}

/// Multiplication distributes over addition wherever both sides fit.
pub proof fn lemma_mul_distributive(a: Rational, b: Rational, c: Rational)
    requires
        a.wf(),
        b.wf(),
        c.wf(),
        spec_product_of_sum(a, b, c) is Some,
        spec_sum_of_products(a, b, c) is Some,
    ensures
        spec_product_of_sum(a, b, c) == spec_sum_of_products(a, b, c),
{
    lemma_add_value(b, c);
    lemma_mul_value(a, b);
    lemma_mul_value(a, c);
    let bc = b.spec_checked_add(c)->Some_0;
    let ab = a.spec_checked_mul(b)->Some_0;
    let ac = a.spec_checked_mul(c)->Some_0;
    lemma_mul_value(a, bc);
    lemma_add_value(ab, ac);
    assert(a@ * (b@ + c@) == a@ * b@ + a@ * c@) by (nonlinear_arith);
    lemma_value_unique(a.spec_checked_mul(bc)->Some_0, ab.spec_checked_add(ac)->Some_0);
}

/// The product of two `i64` values, in `i128`.
fn wide_mul(a: i64, b: i64) -> (p: i128)
    ensures
        p == a * b,
{
    assert(-0x4000_0000_0000_0000_0000_0000_0000_0000 <= a * b
        <= 0x4000_0000_0000_0000_0000_0000_0000_0000) by (nonlinear_arith)
        requires
            -0x8000_0000_0000_0000 <= a <= 0x7fff_ffff_ffff_ffff,
            -0x8000_0000_0000_0000 <= b <= 0x7fff_ffff_ffff_ffff,
    ;
    (a as i128) * (b as i128)
}

/// Whether a wide number is within the magnitude of `fits`.
fn fits_wide(x: i128) -> (res: bool)
    ensures
        res == fits(x as int),
{
    -(i64::MAX as i128) <= x && x <= i64::MAX as i128
}

impl Rational {
    /// The fraction `numer / denom` in lowest terms.
    pub fn new(numer: i64, denom: i64) -> (res: Option<Rational>)
        ensures
            res == Rational::spec_new(numer, denom),
            res matches Some(r) ==> r.wf() && r@ == numer as real / denom as real,
    {
        if denom == 0 || numer == i64::MIN || denom == i64::MIN {
            None
        } else {
            let r = ratio_new(numer, denom);
            proof {
                if denom > 0 {
                    lemma_is_lowest_of(r, numer as int, denom as int);
                    lemma_value_of(r, numer as int, denom as int);
                } else {
                    assert(r.numer * (-denom) == (-numer) * r.denom) by (nonlinear_arith)
                        requires
                            r.numer * denom == numer * r.denom,
                    ;
                    lemma_is_lowest_of(r, -numer, -denom);
                    lemma_value_of(r, -numer, -denom);
                    assert((-numer) as real / (-denom) as real == numer as real / denom as real)
                        by (nonlinear_arith)
                        requires
                            denom < 0,
                    ;
                }
            }
            Some(r)
        }
    }

    /// The integer `n` as a fraction.
    pub fn from_u32(n: u32) -> (r: Rational)
        ensures
            r == (Rational { numer: n as i64, denom: 1 }),
            r.wf(),
            r@ == n as real,
    {
        proof {
            lemma_integer_is_lowest(n as int);
            assert(n as real / 1real == n as real) by (nonlinear_arith);
        }
        Rational { numer: n as i64, denom: 1 }
    }

    /// Zero.
    pub fn zero() -> (r: Rational)
        ensures
            r == (Rational { numer: 0, denom: 1 }),
            r.wf(),
            r@ == 0real,
    {
        Rational::from_u32(0)
    }

    /// One.
    pub fn one() -> (r: Rational)
        ensures
            r == (Rational { numer: 1, denom: 1 }),
            r.wf(),
            r@ == 1real,
    {
        Rational::from_u32(1)
    }

    /// The numerator.
    pub fn numer(&self) -> (n: i64)
        ensures
            n == self.numer,
    {
        self.numer
    }

    /// The denominator.
    pub fn denom(&self) -> (d: i64)
        ensures
            d == self.denom,
    {
        self.denom
    }

    /// Whether the fraction is zero.
    pub fn is_zero(&self) -> (res: bool)
        requires
            self.wf(),
        ensures
            res == (self@ == 0real),
            res == (*self == Rational { numer: 0, denom: 1 }),
    {
        proof {
            lemma_value_order(*self, *self);
            if self.numer == 0 {
                lemma_integer_is_lowest(0);
                lemma_lowest_unique(self.numer as int, self.denom as int, 0, 1);
            }
        }
        self.numer == 0
    }

    /// Whether `self` is less than `rhs`, by value.
    pub fn lt(&self, rhs: &Rational) -> (res: bool)
        requires
            self.wf(),
            rhs.wf(),
        ensures
            res == (self@ < rhs@),
    {
        proof {
            lemma_value_order(*self, *rhs);
        }
        wide_mul(self.numer, rhs.denom) < wide_mul(rhs.numer, self.denom)
    }

    /// Whether `self` is at most `rhs`, by value.
    pub fn le(&self, rhs: &Rational) -> (res: bool)
        requires
            self.wf(),
            rhs.wf(),
        ensures
            res == (self@ <= rhs@),
    {
        proof {
            lemma_value_order(*self, *rhs);
        }
        wide_mul(self.numer, rhs.denom) <= wide_mul(rhs.numer, self.denom)
    }

    /// The absolute value.
    pub fn abs(self) -> (r: Rational)
        requires
            self.wf(),
        ensures
            r == self.spec_abs(),
            r.wf(),
            r@ == (if self@ < 0real { -self@ } else { self@ }),
    {
        proof {
            lemma_value_order(self, self);
        }
        if self.numer < 0 {
            let r = Rational { numer: -self.numer, denom: self.denom };
            proof {
                assert(r@ == -self@) by (nonlinear_arith)
                    requires
                        r.numer == -self.numer,
                        r.denom == self.denom,
                        r.denom > 0,
                        r@ == r.numer as real / r.denom as real,
                        self@ == self.numer as real / self.denom as real,
                ;
            }
            r
        } else {
            self
        }
    }

    /// The sum, or nothing where the cross products do not fit.
    pub fn checked_add(self, rhs: Rational) -> (res: Option<Rational>)
        requires
            self.wf(),
            rhs.wf(),
        ensures
            res == self.spec_checked_add(rhs),
            res matches Some(r) ==> r.wf() && r@ == self@ + rhs@,
    {
        let p = wide_mul(self.numer, rhs.denom);
        let q = wide_mul(rhs.numer, self.denom);
        let d = wide_mul(self.denom, rhs.denom);
        if fits_wide(p) && fits_wide(q) && fits_wide(d) && fits_wide(p + q) {
            let r = ratio_add(self, rhs);
            proof {
                assert(d > 0) by (nonlinear_arith)
                    requires
                        d == self.denom * rhs.denom,
                        self.denom > 0,
                        rhs.denom > 0,
                ;
                lemma_is_lowest_of(r, p + q, d as int);
                lemma_add_value(self, rhs);
            }
            Some(r)
        } else {
            None
        }
    }

    /// The difference, or nothing where the cross products do not fit.
    pub fn checked_sub(self, rhs: Rational) -> (res: Option<Rational>)
        requires
            self.wf(),
            rhs.wf(),
        ensures
            res == self.spec_checked_sub(rhs),
            res matches Some(r) ==> r.wf() && r@ == self@ - rhs@,
    {
        let p = wide_mul(self.numer, rhs.denom);
        let q = wide_mul(rhs.numer, self.denom);
        let d = wide_mul(self.denom, rhs.denom);
        if fits_wide(p) && fits_wide(q) && fits_wide(d) && fits_wide(p - q) {
            let r = ratio_sub(self, rhs);
            proof {
                assert(d > 0) by (nonlinear_arith)
                    requires
                        d == self.denom * rhs.denom,
                        self.denom > 0,
                        rhs.denom > 0,
                ;
                lemma_is_lowest_of(r, p - q, d as int);
                lemma_sub_value(self, rhs);
            }
            Some(r)
        } else {
            None
        }
    }

    /// The product, or nothing where the products of the parts do not fit.
    pub fn checked_mul(self, rhs: Rational) -> (res: Option<Rational>)
        requires
            self.wf(),
            rhs.wf(),
        ensures
            res == self.spec_checked_mul(rhs),
            res matches Some(r) ==> r.wf() && r@ == self@ * rhs@,
    {
        let n = wide_mul(self.numer, rhs.numer);
        let d = wide_mul(self.denom, rhs.denom);
        if fits_wide(n) && fits_wide(d) {
            let r = ratio_mul(self, rhs);
            proof {
                assert(d > 0) by (nonlinear_arith)
                    requires
                        d == self.denom * rhs.denom,
                        self.denom > 0,
                        rhs.denom > 0,
                ;
                lemma_is_lowest_of(r, n as int, d as int);
                lemma_mul_value(self, rhs);
            }
            Some(r)
        } else {
            None
        }
    }

    /// The quotient, or nothing for a zero divisor or where the cross
    /// products do not fit.
    pub fn checked_div(self, rhs: Rational) -> (res: Option<Rational>)
        requires
            self.wf(),
            rhs.wf(),
        ensures
            res == self.spec_checked_div(rhs),
            res matches Some(r) ==> r.wf() && rhs@ != 0real && r@ == self@ / rhs@,
    {
        let n = wide_mul(self.numer, rhs.denom);
        let d = wide_mul(self.denom, rhs.numer);
        if rhs.numer != 0 && fits_wide(n) && fits_wide(d) {
            let r = ratio_div(self, rhs);
            proof {
                if rhs.numer > 0 {
                    assert(d > 0) by (nonlinear_arith)
                        requires
                            d == self.denom * rhs.numer,
                            self.denom > 0,
                            rhs.numer > 0,
                    ;
                    lemma_is_lowest_of(r, n as int, d as int);
                } else {
                    assert(-d > 0) by (nonlinear_arith)
                        requires
                            d == self.denom * rhs.numer,
                            self.denom > 0,
                            rhs.numer < 0,
                    ;
                    assert(r.numer * (-d) == (-n) * r.denom) by (nonlinear_arith)
                        requires
                            r.numer * d == n * r.denom,
                    ;
                    lemma_is_lowest_of(r, -n, -d);
                }
                lemma_div_value(self, rhs);
            }
            Some(r)
        } else {
            None
        }
    }
}

} // verus!
