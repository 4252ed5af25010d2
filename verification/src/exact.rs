//! What the library's arithmetic comes to where numbers are exact.
//!
//! The contracts say which operators are applied, and in which order. The laws that
//! rest on this module say what that computes: they read a value of the number type as
//! a real number and ask that the operators do what they do on real numbers.

use core::ops::{Add, Div, Mul, Sub};
use crate::functions;
use crate::scalar;
use vstd::prelude::*;
#[allow(unused_imports)]
use vstd::std_specs::ops::{AddSpec, DivSpec, MulSpec, SubSpec};

verus! {

/// Sums come out exactly.
pub open spec fn adds<T: Add<Output = T>>(of: spec_fn(T) -> real) -> bool {
    forall|x: T, y: T| of(#[trigger] x.add_spec(y)) == of(x) + of(y)
}

/// Differences come out exactly.
pub open spec fn subtracts<T: Sub<Output = T>>(of: spec_fn(T) -> real) -> bool {
    forall|x: T, y: T| of(#[trigger] x.sub_spec(y)) == of(x) - of(y)
}

/// Products come out exactly.
pub open spec fn multiplies<T: Mul<Output = T>>(of: spec_fn(T) -> real) -> bool {
    forall|x: T, y: T| of(#[trigger] x.mul_spec(y)) == of(x) * of(y)
}

/// Quotients come out exactly: times the divisor they give the dividend.
pub open spec fn divides<T: Div<Output = T>>(of: spec_fn(T) -> real) -> bool {
    forall|x: T, y: T|
        of(y) != 0real ==> of(#[trigger] x.div_spec(y)) * of(y) == of(x)
}

/// Comparisons are those of the real numbers.
pub open spec fn compares<T: PartialOrd>(of: spec_fn(T) -> real) -> bool {
    &&& forall|x: T, y: T| #[trigger] scalar::lt(x, y) <==> of(x) < of(y)
    &&& forall|x: T, y: T| #[trigger] scalar::le(x, y) <==> of(x) <= of(y)
    &&& forall|x: T, y: T| #[trigger] scalar::gt(x, y) <==> of(x) > of(y)
    &&& forall|x: T, y: T| #[trigger] scalar::ge(x, y) <==> of(x) >= of(y)
}

/// Numbers that are compared as the real numbers are stand in one line.
pub proof fn lemma_compared_in_one_line<T: PartialOrd>(of: spec_fn(T) -> real)
    requires
        compares(of),
    ensures
        scalar::linear(Set::<T>::full()),
{
}

/// The larger of two numbers.
pub open spec fn maximum(x: real, y: real) -> real {
    if x < y {
        y
    } else {
        x
    }
}

/// The smaller of two numbers.
pub open spec fn minimum(x: real, y: real) -> real {
    if x < y {
        x
    } else {
        y
    }
}

/// The larger and the smaller of two numbers are what they are of the real numbers.
pub proof fn law_larger_and_smaller_are_exact<T: PartialOrd>(of: spec_fn(T) -> real, a: T, b: T)
    requires
        compares(of),
    ensures
        of(scalar::larger(a, b)) == maximum(of(a), of(b)),
        of(scalar::smaller(a, b)) == minimum(of(a), of(b)),
        scalar::larger(a, b) == a || scalar::larger(a, b) == b,
        scalar::smaller(a, b) == a || scalar::smaller(a, b) == b,
{
}

/// A count becomes the number that it is.
pub open spec fn counts<T, N: Fn(usize) -> T>(of: spec_fn(T) -> real, count_of: N) -> bool {
    forall|n: usize| of(#[trigger] functions::value(count_of, n)) == n as real
}

/// Rounding gives the count nearest to a number that can be counted.
pub open spec fn rounds<T, R: Fn(T) -> usize>(of: spec_fn(T) -> real, round: R) -> bool {
    forall|x: T|
        0real <= of(x) < usize::MAX as real ==> {
            let n = #[trigger] functions::value(round, x) as real;
            2real * n - 1real <= 2real * of(x) <= 2real * n + 1real
        }
}

/// The whole part of a number that can be counted is taken.
pub open spec fn floors<T, W: Fn(T) -> usize>(of: spec_fn(T) -> real, whole: W) -> bool {
    forall|x: T|
        0real <= of(x) <= usize::MAX as real ==> {
            let n = #[trigger] functions::value(whole, x) as real;
            n <= of(x) < n + 1real
        }
}

/// The sum of `f(0)` to `f(n - 1)`.
pub open spec fn sum(f: spec_fn(int) -> real, n: int) -> real
    decreases n,
{
    if n <= 0 {
        0real
    } else {
        sum(f, n - 1) + f(n - 1)
    }
}

pub proof fn lemma_sum_same(f: spec_fn(int) -> real, g: spec_fn(int) -> real, n: int)
    requires
        forall|i: int| 0 <= i < n ==> #[trigger] f(i) == g(i),
    ensures
        sum(f, n) == sum(g, n),
    decreases n,
{
    if n > 0 {
        lemma_sum_same(f, g, n - 1);
    }
}

/// Where every term of one sum is at least `c` times that of another, so is the sum.
pub proof fn lemma_sum_at_least(
    f: spec_fn(int) -> real,
    g: spec_fn(int) -> real,
    c: real,
    n: int,
)
    requires
        forall|i: int| 0 <= i < n ==> #[trigger] f(i) >= c * g(i),
    ensures
        sum(f, n) >= c * sum(g, n),
    decreases n,
{
    if n > 0 {
        lemma_sum_at_least(f, g, c, n - 1);
        let (x, y) = (sum(g, n - 1), g(n - 1));
        assert(f(n - 1) >= c * g(n - 1));
        assert(c * (x + y) == c * x + c * y) by (nonlinear_arith);
    } else {
        assert(c * 0real == 0real) by (nonlinear_arith);
    }
}

/// Term `i` of one sum is below `c` times that of another, unless both are nothing.
pub open spec fn is_below(
    f: spec_fn(int) -> real,
    g: spec_fn(int) -> real,
    c: real,
    i: int,
) -> bool {
    &&& g(i) >= 0real
    &&& g(i) > 0real ==> f(i) < c * g(i)
    &&& g(i) == 0real ==> f(i) == 0real
}

/// Where every term of one sum is below `c` times that of another, unless both are
/// nothing, so is the sum.
pub proof fn lemma_sum_below(f: spec_fn(int) -> real, g: spec_fn(int) -> real, c: real, n: int)
    requires
        forall|i: int| 0 <= i < n ==> #[trigger] is_below(f, g, c, i),
    ensures
        sum(g, n) >= 0real,
        sum(g, n) > 0real ==> sum(f, n) < c * sum(g, n),
        sum(g, n) == 0real ==> sum(f, n) == 0real,
    decreases n,
{
    if n > 0 {
        lemma_sum_below(f, g, c, n - 1);
        let (x, y) = (sum(g, n - 1), g(n - 1));
        assert(c * (x + y) == c * x + c * y) by (nonlinear_arith);
        assert(c * 0real == 0real) by (nonlinear_arith);
        assert(is_below(f, g, c, n - 1));
    }
}

pub proof fn lemma_sum_of_nothing(n: int)
    ensures
        sum(|i: int| 0real, n) == 0real,
    decreases n,
{
    if n > 0 {
        lemma_sum_of_nothing(n - 1);
    }
}

/// A sum of numbers that are not negative is positive if one of them is.
pub proof fn lemma_sum_positive(f: spec_fn(int) -> real, k: int, n: int)
    requires
        0 <= k < n,
        f(k) > 0real,
        forall|i: int| 0 <= i < n ==> #[trigger] f(i) >= 0real,
    ensures
        sum(f, n) > 0real,
    decreases n,
{
    if k < n - 1 {
        lemma_sum_positive(f, k, n - 1);
    } else {
        lemma_sum_at_least(f, |i: int| 0real, 1real, n - 1);
        lemma_sum_of_nothing(n - 1);
    }
}

/// The quotient of two counts, times the one below, is the one above.
pub proof fn law_fractions_are_quotients<T: Div<Output = T>, N: Fn(usize) -> T>(
    of: spec_fn(T) -> real,
    count_of: N,
    over: usize,
    under: usize,
)
    requires
        divides(of),
        counts(of, count_of),
        under > 0,
    ensures
        of(functions::fraction(count_of, over, under)) * (under as real) == over as real,
{
}

pub proof fn lemma_fraction_is<T: Div<Output = T>, N: Fn(usize) -> T>(
    of: spec_fn(T) -> real,
    count_of: N,
    over: usize,
    under: usize,
    x: real,
    y: real,
)
    requires
        divides(of),
        counts(of, count_of),
        under > 0,
        x == over as real,
        y == under as real,
    ensures
        y * of(functions::fraction(count_of, over, under)) == x,
{
    law_fractions_are_quotients(of, count_of, over, under);
    let quotient = of(functions::fraction(count_of, over, under));
    assert(y * quotient == quotient * y) by (nonlinear_arith);
}

} // verus!
