//! Exact rational numbers over 128-bit integers, computed by `num_rational`.
use num_rational::Ratio;
use num_traits::CheckedAdd;
use num_traits::CheckedDiv;
use num_traits::CheckedMul;
use num_traits::CheckedSub;
use vstd::prelude::*;

verus! {

/// A rational number: a numerator over a positive denominator.
#[derive(Clone, Copy, Debug)]
pub struct Rat {
    pub numer: i128,
    pub denom: i128,
}

impl View for Rat {
    type V = (int, int);

    open spec fn view(&self) -> (int, int) {
        (self.numer as int, self.denom as int)
    }
}

impl Rat {
    /// The denominator is positive.
    pub open spec fn wf(self) -> bool {
        self.denom > 0
    }

    /// The number that the fraction stands for.
    pub open spec fn val(self) -> real {
        self.numer as real / self.denom as real
    }

    /// The fraction of an integer.
    pub open spec fn whole(n: i128) -> Rat {
        Rat { numer: n, denom: 1 }
    }

    /// The fraction of an integer.
    pub fn from_integer(n: i128) -> (r: Rat)
        ensures
            r == Rat::whole(n),
            r.wf(),
            r.val() == n as real,
    {
        proof {
            let v: real = n as real;
            assert(v / 1real == v) by (nonlinear_arith);
        }
        Rat { numer: n, denom: 1 }
    }

    /// The fraction is zero exactly if its numerator is.
    pub fn is_zero(&self) -> (r: bool)
        requires
            self.wf(),
        ensures
            r == (self.numer == 0),
            r == (self.val() == 0real),
    {
        proof {
            lemma_zero(*self);
        }
        self.numer == 0
    }
}

/// An integer that the numerator and the denominator of a fraction can hold.
pub open spec fn fits(n: int) -> bool {
    i128::MIN <= n <= i128::MAX
}

/// The fraction behind an optional result.
pub open spec fn opt_view(r: Option<Rat>) -> Option<(int, int)> {
    match r {
        Some(q) => Some(q@),
        None => None,
    }
}

/// What `Ratio::checked_add` over `i128` returns for two fractions.
pub uninterp spec fn ratio_sum(a: (int, int), b: (int, int)) -> Option<(int, int)>;

/// What `Ratio::checked_sub` over `i128` returns for two fractions.
pub uninterp spec fn ratio_difference(a: (int, int), b: (int, int)) -> Option<(int, int)>;

/// What `Ratio::checked_mul` over `i128` returns for two fractions.
pub uninterp spec fn ratio_product(a: (int, int), b: (int, int)) -> Option<(int, int)>;

/// What `Ratio::checked_div` over `i128` returns for two fractions.
pub uninterp spec fn ratio_quotient(a: (int, int), b: (int, int)) -> Option<(int, int)>;

/// `Ratio::checked_add` on fractions with positive denominators: the exact sum in lowest terms, or
/// nothing where the sum over the least common denominator leaves the range of `i128`. It is there
/// whenever the sum over the product of the denominators fits.
#[verifier::external_body]
pub(crate) fn checked_sum(a: Rat, b: Rat) -> (r: Option<Rat>)
    requires
        a.wf(),
        b.wf(),
    ensures
        opt_view(r) == ratio_sum(a@, b@),
        r matches Some(q) ==> q.wf() && coprime(q.numer as int, q.denom as int) && q.val() == a.val() + b.val(),
        fits(a.numer * b.denom) && fits(b.numer * a.denom) && fits(a.denom * b.denom) && fits(
            a.numer * b.denom + b.numer * a.denom,
        ) ==> r is Some,
{
    let sum = Ratio::new_raw(a.numer, a.denom).checked_add(&Ratio::new_raw(b.numer, b.denom));
    sum.map(|q| Rat { numer: *q.numer(), denom: *q.denom() })
}

/// `Ratio::checked_sub` on fractions with positive denominators: the exact difference in lowest
/// terms, or nothing where the difference over the least common denominator leaves the range of
/// `i128`. It is there whenever the difference over the product of the denominators fits.
#[verifier::external_body]
pub(crate) fn checked_difference(a: Rat, b: Rat) -> (r: Option<Rat>)
    requires
        a.wf(),
        b.wf(),
    ensures
        opt_view(r) == ratio_difference(a@, b@),
        r matches Some(q) ==> q.wf() && coprime(q.numer as int, q.denom as int) && q.val() == a.val() - b.val(),
        fits(a.numer * b.denom) && fits(b.numer * a.denom) && fits(a.denom * b.denom) && fits(
            a.numer * b.denom - b.numer * a.denom,
        ) ==> r is Some,
{
    let difference = Ratio::new_raw(a.numer, a.denom).checked_sub(&Ratio::new_raw(b.numer, b.denom));
    difference.map(|q| Rat { numer: *q.numer(), denom: *q.denom() })
}

/// `Ratio::checked_mul` on fractions with positive denominators: the exact product in lowest terms,
/// or nothing where it leaves the range of `i128` after the crosswise common factors are taken out.
/// It is there whenever the products of the numerators and of the denominators fit.
#[verifier::external_body]
pub(crate) fn checked_product(a: Rat, b: Rat) -> (r: Option<Rat>)
    requires
        a.wf(),
        b.wf(),
    ensures
        opt_view(r) == ratio_product(a@, b@),
        r matches Some(q) ==> q.wf() && coprime(q.numer as int, q.denom as int) && q.val() == a.val() * b.val(),
        fits(a.numer * b.numer) && fits(a.denom * b.denom) ==> r is Some,
{
    let product = Ratio::new_raw(a.numer, a.denom).checked_mul(&Ratio::new_raw(b.numer, b.denom));
    product.map(|q| Rat { numer: *q.numer(), denom: *q.denom() })
}

/// `Ratio::checked_div` on fractions with positive denominators: the exact quotient in lowest
/// terms, or nothing where the divisor is zero or the quotient leaves the range of `i128`. It is
/// there whenever the crosswise products and their negations fit. A numerator that has no negation
/// is left out, since the greatest common divisor of such numbers overflows.
#[verifier::external_body]
pub(crate) fn checked_quotient(a: Rat, b: Rat) -> (r: Option<Rat>)
    requires
        a.wf(),
        b.wf(),
        a.numer != i128::MIN,
        b.numer != i128::MIN,
    ensures
        opt_view(r) == ratio_quotient(a@, b@),
        b.numer == 0 ==> r is None,
        r matches Some(q) ==> q.wf() && coprime(q.numer as int, q.denom as int) && q.val() * b.val() == a.val(),
        b.numer != 0 && fits(a.numer * b.denom) && fits(-(a.numer * b.denom)) && fits(a.denom * b.numer) && fits(
            -(a.denom * b.numer),
        ) ==> r is Some,
{
    let quotient = Ratio::new_raw(a.numer, a.denom).checked_div(&Ratio::new_raw(b.numer, b.denom));
    quotient.map(|q| Rat { numer: *q.numer(), denom: *q.denom() })
}

/// No number above one divides both.
pub open spec fn coprime(a: int, b: int) -> bool {
    forall|g: int| #![trigger a % g] g > 1 ==> !(a % g == 0 && b % g == 0)
}

/// A fraction in lowest terms that stands for an integer has the denominator one.
pub proof fn law_whole_number_in_lowest_terms(q: Rat, n: int)
    requires
        q.wf(),
        coprime(q.numer as int, q.denom as int),
        q.val() == n as real,
    ensures
        q.denom == 1,
        q.numer == n,
{
    let x: int = q.numer as int;
    let d: int = q.denom as int;
    assert(x as real == n as real * d as real) by (nonlinear_arith)
        requires
            x as real / d as real == n as real,
            d > 0,
    ;
    assert((n * d) as real == n as real * d as real) by (nonlinear_arith);
    assert(x == n * d);
    assert(x % d == 0 && d % d == 0) by (nonlinear_arith)
        requires
            x == n * d,
            d > 0,
    ;
    assert(x == n) by (nonlinear_arith)
        requires
            x == n * d,
            d == 1,
    ;
}

/// `Ratio::new` on 64-bit integers with a positive denominator: the fraction in lowest terms, with
/// a positive denominator.
#[verifier::external_body]
pub(crate) fn lowest_terms(n: i64, d: i64) -> (r: (i64, i64))
    requires
        d > 0,
    ensures
        r.1 > 0,
        r.0 * d == n * r.1,
        coprime(r.0 as int, r.1 as int),
{
    let q = num_rational::Rational64::new(n, d);
    (*q.numer(), *q.denom())
}

/// `Ratio::lt` on fractions with positive denominators compares the numbers they stand for.
#[verifier::external_body]
pub(crate) fn less(a: Rat, b: Rat) -> (r: bool)
    requires
        a.wf(),
        b.wf(),
    ensures
        r == (a.val() < b.val()),
{
    Ratio::new_raw(a.numer, a.denom) < Ratio::new_raw(b.numer, b.denom)
}

/// The fraction that an outside result describes.
pub open spec fn opt_rat(r: Option<(int, int)>) -> Option<Rat> {
    match r {
        Some(q) => Some(Rat { numer: q.0 as i128, denom: q.1 as i128 }),
        None => None,
    }
}

/// The sum of two fractions, where it is representable.
pub open spec fn sum_of(a: Rat, b: Rat) -> Option<Rat> {
    opt_rat(ratio_sum(a@, b@))
}

/// The difference of two fractions, where it is representable.
pub open spec fn difference_of(a: Rat, b: Rat) -> Option<Rat> {
    opt_rat(ratio_difference(a@, b@))
}

/// The product of two fractions, where it is representable.
pub open spec fn product_of(a: Rat, b: Rat) -> Option<Rat> {
    opt_rat(ratio_product(a@, b@))
}

/// The quotient of two fractions, where it is representable.
pub open spec fn quotient_of(a: Rat, b: Rat) -> Option<Rat> {
    if a.numer == i128::MIN || b.numer == i128::MIN {
        None
    } else {
        opt_rat(ratio_quotient(a@, b@))
    }
}

/// The negation of a fraction, where it is representable.
pub open spec fn negation_of(a: Rat) -> Option<Rat> {
    opt_rat(ratio_negation(a@))
}

/// The sum of two fractions, where it is representable.
pub fn sum(a: Rat, b: Rat) -> (r: Option<Rat>)
    requires
        a.wf(),
        b.wf(),
    ensures
        r == sum_of(a, b),
        r matches Some(q) ==> q.wf() && coprime(q.numer as int, q.denom as int) && q.val() == a.val() + b.val(),
        fits(a.numer * b.denom) && fits(b.numer * a.denom) && fits(a.denom * b.denom) && fits(
            a.numer * b.denom + b.numer * a.denom,
        ) ==> r is Some,
{
    checked_sum(a, b)
}

/// The difference of two fractions, where it is representable.
pub fn difference(a: Rat, b: Rat) -> (r: Option<Rat>)
    requires
        a.wf(),
        b.wf(),
    ensures
        r == difference_of(a, b),
        r matches Some(q) ==> q.wf() && coprime(q.numer as int, q.denom as int) && q.val() == a.val() - b.val(),
        fits(a.numer * b.denom) && fits(b.numer * a.denom) && fits(a.denom * b.denom) && fits(
            a.numer * b.denom - b.numer * a.denom,
        ) ==> r is Some,
{
    checked_difference(a, b)
}

/// The product of two fractions, where it is representable.
pub fn product(a: Rat, b: Rat) -> (r: Option<Rat>)
    requires
        a.wf(),
        b.wf(),
    ensures
        r == product_of(a, b),
        r matches Some(q) ==> q.wf() && coprime(q.numer as int, q.denom as int) && q.val() == a.val() * b.val(),
        fits(a.numer * b.numer) && fits(a.denom * b.denom) ==> r is Some,
{
    checked_product(a, b)
}

/// The quotient of two fractions, where it is representable.
pub fn quotient(a: Rat, b: Rat) -> (r: Option<Rat>)
    requires
        a.wf(),
        b.wf(),
    ensures
        r == quotient_of(a, b),
        b.numer == 0 ==> r is None,
        r matches Some(q) ==> q.wf() && coprime(q.numer as int, q.denom as int) && q.val() * b.val() == a.val(),
        a.numer != i128::MIN && b.numer != i128::MIN && b.numer != 0 && fits(a.numer * b.denom) && fits(
            -(a.numer * b.denom),
        ) && fits(a.denom * b.numer) && fits(-(a.denom * b.numer)) ==> r is Some,
{
    if a.numer == i128::MIN || b.numer == i128::MIN {
        None
    } else {
        checked_quotient(a, b)
    }
}

/// The negation of a fraction, or nothing where the numerator is the least `i128`.
pub open spec fn ratio_negation(a: (int, int)) -> Option<(int, int)> {
    if fits(-a.0) {
        Some((-a.0, a.1))
    } else {
        None
    }
}

/// The negation of a fraction, or nothing where the numerator is the least `i128`.
pub fn negation(a: Rat) -> (r: Option<Rat>)
    requires
        a.wf(),
    ensures
        r == negation_of(a),
        r matches Some(q) ==> q.wf() && q.val() == -a.val(),
        r is None <==> a.numer == i128::MIN,
{
    if a.numer == i128::MIN {
        None
    } else {
        proof {
            let n: real = a.numer as real;
            let d: real = a.denom as real;
            assert((-a.numer) as real == -n);
            assert((-n) / d == -(n / d)) by (nonlinear_arith)
                requires
                    d > 0real,
            ;
        }
        Some(Rat { numer: -a.numer, denom: a.denom })
    }
}

/// A fraction is zero exactly if its numerator is.
pub proof fn lemma_zero(a: Rat)
    requires
        a.wf(),
    ensures
        (a.numer == 0) == (a.val() == 0real),
{
    let n: real = a.numer as real;
    let d: real = a.denom as real;
    assert((n == 0real) == (n / d == 0real)) by (nonlinear_arith)
        requires
            d > 0real,
    ;
}

} // verus!
