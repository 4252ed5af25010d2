//! Functions that callers hand to the library.

use core::ops::Div;
use vstd::prelude::*;
#[allow(unused_imports)]
use vstd::std_specs::ops::DivSpec;

verus! {

/// What a function returns for `x`, if it always returns the same for it.
pub open spec fn value<X, Y, F: Fn(X) -> Y>(f: F, x: X) -> Y {
    choose|y: Y| f.ensures((x,), y)
}

/// A function can be called on anything and always returns the same for the same
/// argument.
pub open spec fn steady<X, Y, F: Fn(X) -> Y>(f: F) -> bool {
    &&& forall|x: X| #[trigger] f.requires((x,))
    &&& forall|x: X, y: Y| #[trigger] f.ensures((x,), y) ==> y == value(f, x)
}

/// The quotient of two counts, as a number; `count_of` turns a count into one.
pub open spec fn fraction<T: Div<Output = T>, N: Fn(usize) -> T>(
    count_of: N,
    over: usize,
    under: usize,
) -> T {
    value(count_of, over).div_spec(value(count_of, under))
}

/// The quotient of two counts stays within `T`.
pub open spec fn fraction_fits<T: Div<Output = T>, N: Fn(usize) -> T>(
    count_of: N,
    over: usize,
    under: usize,
) -> bool {
    value(count_of, over).div_req(value(count_of, under))
}

/// Divides one count by another.
pub fn divided<T: Div<Output = T>, N: Fn(usize) -> T>(
    count_of: &N,
    over: usize,
    under: usize,
) -> (quotient: T)
    requires
        T::obeys_div_spec(),
        steady(*count_of),
        fraction_fits(*count_of, over, under),
    ensures
        quotient == fraction(*count_of, over, under),
{
    count_of(over) / count_of(under)
}

/// A function of two vectors goes by what they hold.
pub open spec fn reads_contents<A, S, D: Fn(&Vec<A>, &Vec<A>) -> S>(dot: D) -> bool {
    forall|a: Vec<A>, b: Vec<A>, c: Vec<A>, d: Vec<A>, s: S, t: S|
        a@ == c@ && b@ == d@ && #[trigger] dot.ensures((&a, &b), s) && #[trigger] dot.ensures(
            (&c, &d),
            t,
        ) ==> s == t
}

} // verus!
