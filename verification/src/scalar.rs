//! What the library asks of the numbers it works on.
//!
//! Times, probabilities and distances are values of a type parameter `T`. The
//! library adds, divides and compares them with the operators of the standard
//! library and never looks inside, so a caller picks the representation. Contracts
//! ask that the operators of `T` do what their specifications say: the same operands
//! give the same result. Where an operation may leave `T`, as addition of integers
//! may, they ask that it does not.

use vstd::prelude::*;
#[allow(unused_imports)]
use vstd::std_specs::cmp::{PartialOrdIs, PartialOrdSpec};

verus! {

/// Comparing two values of `T` always gives the answer that its specification
/// gives.
pub open spec fn ordered<T: PartialOrd>() -> bool {
    T::obeys_partial_cmp_spec()
}

/// `a < b`.
pub open spec fn lt<T: PartialOrd>(a: T, b: T) -> bool {
    a.is_lt(&b)
}

/// `a <= b`.
pub open spec fn le<T: PartialOrd>(a: T, b: T) -> bool {
    a.is_le(&b)
}

/// `a > b`.
pub open spec fn gt<T: PartialOrd>(a: T, b: T) -> bool {
    a.is_gt(&b)
}

/// `a >= b`.
pub open spec fn ge<T: PartialOrd>(a: T, b: T) -> bool {
    a.is_ge(&b)
}

/// The comparison operators arrange these values in one line: any two of them
/// can be compared, and comparisons chain.
pub open spec fn linear<T: PartialOrd>(values: Set<T>) -> bool {
    &&& forall|a: T, b: T|
        #![trigger le(a, b)]
        #![trigger lt(b, a)]
        values.contains(a) && values.contains(b) ==> {
            &&& le(a, b) || le(b, a)
            &&& le(a, b) == !lt(b, a)
            &&& gt(b, a) == lt(a, b)
            &&& ge(b, a) == le(a, b)
        }
    &&& forall|a: T, b: T, c: T|
        #![trigger le(a, b), le(b, c)]
        values.contains(a) && values.contains(b) && values.contains(c) && le(a, b) && le(b, c)
            ==> le(a, c)
}

/// Integers are compared as specified, and any set of them is in one line.
pub proof fn law_integers_are_linear(values: Set<i64>)
    ensures
        ordered::<i64>(),
        linear(values),
{
}

/// The larger of two numbers, or the other where one is not a number.
pub open spec fn larger<T: PartialOrd>(a: T, b: T) -> T {
    if lt(a, b) || !le(a, a) {
        b
    } else {
        a
    }
}

/// The smaller of two numbers, or the other where one is not a number.
pub open spec fn smaller<T: PartialOrd>(a: T, b: T) -> T {
    if gt(a, b) || !le(a, a) {
        b
    } else {
        a
    }
}

/// The larger of two numbers. A value that cannot even be compared with itself is
/// not a number: the other one is returned then.
pub fn maximum<T: Copy + PartialOrd>(a: T, b: T) -> (m: T)
    requires
        ordered::<T>(),
    ensures
        m == larger(a, b),
{
    if a < b || !(a <= a) {
        b
    } else {
        a
    }
}

/// The smaller of two numbers. A value that cannot even be compared with itself
/// is not a number: the other one is returned then.
pub fn minimum<T: Copy + PartialOrd>(a: T, b: T) -> (m: T)
    requires
        ordered::<T>(),
    ensures
        m == smaller(a, b),
{
    if a > b || !(a <= a) {
        b
    } else {
        a
    }
}

/// A value is not a number: it cannot be compared, not even with itself.
pub open spec fn is_no_number<T: PartialOrd>(x: T) -> bool {
    &&& forall|y: T|
        #![trigger lt(x, y)]
        #![trigger le(x, y)]
        #![trigger gt(x, y)]
        #![trigger ge(x, y)]
        !lt(x, y) && !le(x, y) && !gt(x, y) && !ge(x, y)
    &&& forall|y: T|
        #![trigger lt(y, x)]
        #![trigger le(y, x)]
        #![trigger gt(y, x)]
        #![trigger ge(y, x)]
        !lt(y, x) && !le(y, x) && !gt(y, x) && !ge(y, x)
}

/// What is not a number gives way to what is.
pub proof fn law_numbers_win<T: Copy + PartialOrd>(a: T, b: T, high: T, low: T)
    requires
        call_ensures(maximum::<T>, (a, b), high),
        call_ensures(minimum::<T>, (a, b), low),
    ensures
        is_no_number(a) ==> high == b && low == b,
        is_no_number(b) && le(a, a) ==> high == a && low == a,
        high == a || high == b,
        low == a || low == b,
{
}

} // verus!
