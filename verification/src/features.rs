//! The numbers that describe a stretch of speech.

use crate::scalar;
use crate::tensor;
use crate::tensor::Tensor;
use crate::types::DiarizationError;
use core::ops::{Add, Div, Mul, Sub};
use vstd::prelude::*;
#[allow(unused_imports)]
use vstd::std_specs::ops::{AddSpec, DivSpec, MulSpec, SubSpec};

verus! {

/// How many bands the spectrum of a frame has.
pub const BINS: usize = 80;

/// `zero` and band `bin` of the first `n` frames, added from the first frame on.
pub open spec fn band_sum<T: Add<Output = T>>(
    features: Seq<T>,
    zero: T,
    bin: int,
    n: int,
) -> T
    decreases n,
{
    if n <= 0 {
        zero
    } else {
        band_sum(features, zero, bin, n - 1).add_spec(features[(n - 1) * BINS + bin])
    }
}

/// The average of a band over `frames` frames; `count` is that number.
pub open spec fn band_mean<T: Add<Output = T> + Div<Output = T>>(
    features: Seq<T>,
    frames: int,
    zero: T,
    count: T,
    bin: int,
) -> T {
    band_sum(features, zero, bin, frames).div_spec(count)
}

/// The features with the average of its band taken from each number of the first
/// `frames` frames.
pub open spec fn centred<T: Add<Output = T> + Sub<Output = T> + Div<Output = T>>(
    features: Seq<T>,
    frames: int,
    zero: T,
    count: T,
) -> Seq<T> {
    Seq::new(
        features.len(),
        |at: int|
            if at < frames * BINS {
                features[at].sub_spec(band_mean(features, frames, zero, count, at % BINS as int))
            } else {
                features[at]
            },
    )
}

/// The arithmetic behind `centred` stays within `T`.
pub open spec fn centring_fits<T: Add<Output = T> + Sub<Output = T> + Div<Output = T>>(
    features: Seq<T>,
    frames: int,
    zero: T,
    count: T,
) -> bool {
    &&& forall|bin: int, n: int|
        0 <= bin < BINS && 0 <= n < frames ==> (#[trigger] band_sum(
            features,
            zero,
            bin,
            n,
        )).add_req(features[n * BINS + bin])
    &&& frames > 0 ==> forall|bin: int|
        0 <= bin < BINS ==> (#[trigger] band_sum(features, zero, bin, frames)).div_req(count)
    &&& forall|at: int|
        0 <= at < frames * BINS ==> (#[trigger] features[at]).sub_req(
            band_mean(features, frames, zero, count, at % BINS as int),
        )
}

/// Takes from each number the average of its band over all frames, where `count`
/// is the number of frames. Numbers past the last frame stay as they are.
pub fn centre_bands<T>(features: Vec<T>, frames: usize, zero: T, count: T) -> (out: Vec<T>)
    where T: Copy + Add<Output = T> + Sub<Output = T> + Div<Output = T>
    requires
        T::obeys_add_spec(),
        T::obeys_sub_spec(),
        T::obeys_div_spec(),
        features@.len() >= frames * BINS,
        centring_fits(features@, frames as int, zero, count),
    ensures
        out@ == centred(features@, frames as int, zero, count),
{
    let ghost before = features@;
    let mut out: Vec<T> = features;
    if frames > 0 {
        let mut means: Vec<T> = Vec::new();
        let mut bin: usize = 0;
        while bin < BINS
            invariant
                bin <= BINS,
                frames > 0,
                T::obeys_add_spec(),
                T::obeys_div_spec(),
                out@ == before,
                before.len() >= frames * BINS,
                before.len() == out.len(),
                centring_fits(before, frames as int, zero, count),
                means@.len() == bin,
                forall|b: int|
                    0 <= b < bin ==> #[trigger] means@[b] == band_mean(
                        before,
                        frames as int,
                        zero,
                        count,
                        b,
                    ),
            decreases BINS - bin,
        {
            let mut sum: T = zero;
            let mut n: usize = 0;
            while n < frames
                invariant
                    n <= frames,
                    bin < BINS,
                    T::obeys_add_spec(),
                    out@ == before,
                    before.len() >= frames * BINS,
                    before.len() == out.len(),
                    centring_fits(before, frames as int, zero, count),
                    sum == band_sum(before, zero, bin as int, n as int),
                decreases frames - n,
            {
                sum = sum + out[n * BINS + bin];
                n = n + 1;
            }
            means.push(sum / count);
            bin = bin + 1;
        }
        let limit: usize = frames * BINS;
        let mut at: usize = 0;
        while at < limit
            invariant
                at <= limit,
                limit == frames * BINS,
                limit <= before.len(),
                T::obeys_sub_spec(),
                centring_fits(before, frames as int, zero, count),
                out@.len() == before.len(),
                means@.len() == BINS,
                forall|b: int|
                    0 <= b < BINS ==> #[trigger] means@[b] == band_mean(
                        before,
                        frames as int,
                        zero,
                        count,
                        b,
                    ),
                forall|k: int|
                    0 <= k < at ==> #[trigger] out@[k] == centred(
                        before,
                        frames as int,
                        zero,
                        count,
                    )[k],
                forall|k: int| at <= k < before.len() ==> #[trigger] out@[k] == before[k],
            decreases limit - at,
        {
            proof {
                assert(out@[at as int] == before[at as int]);
            }
            let value: T = out[at] - means[at % BINS];
            out.set(at, value);
            at = at + 1;
        }
    }
    proof {
        assert(out@ =~= centred(before, frames as int, zero, count));
    }
    out
}

/// The features of a stretch of speech as the embedding model takes them: one
/// batch with a row for each frame, each band centred on its average.
pub fn feature_tensor<T>(features: Vec<T>, frames: usize, zero: T, count: T) -> (made: Result<
    Tensor<T>,
    DiarizationError,
>)
    where T: Copy + Add<Output = T> + Sub<Output = T> + Div<Output = T>
    requires
        T::obeys_add_spec(),
        T::obeys_sub_spec(),
        T::obeys_div_spec(),
        features@.len() >= frames * BINS,
        centring_fits(features@, frames as int, zero, count),
    ensures
        match tensor::misfit(1, frames, BINS, features@.len()) {
            Some(fault) => made == Err::<Tensor<T>, DiarizationError>(
                DiarizationError::Shape(fault),
            ),
            None => made matches Ok(t) && t.valid() && t.batch == 1 && t.rows == frames && t.cols
                == BINS && t.data@ == centred(features@, frames as int, zero, count),
        },
{
    let data: Vec<T> = centre_bands(features, frames, zero, count);
    Tensor::new(1, frames, BINS, data)
}

/// `zero` and the squares of the first `n` numbers, added from the first on.
pub open spec fn square_sum<T: Add<Output = T> + Mul<Output = T>>(
    values: Seq<T>,
    zero: T,
    n: int,
) -> T
    decreases n,
{
    if n <= 0 {
        zero
    } else {
        square_sum(values, zero, n - 1).add_spec(values[n - 1].mul_spec(values[n - 1]))
    }
}

/// The square of the length of a vector.
pub fn squared_norm<T: Copy + Add<Output = T> + Mul<Output = T>>(values: &[T], zero: T) -> (sum: T)
    requires
        T::obeys_add_spec(),
        T::obeys_mul_spec(),
        forall|n: int|
            0 <= n < values@.len() ==> {
                &&& (#[trigger] values@[n]).mul_req(values@[n])
                &&& square_sum(values@, zero, n).add_req(values@[n].mul_spec(values@[n]))
            },
    ensures
        sum == square_sum(values@, zero, values@.len() as int),
{
    let mut sum: T = zero;
    let mut n: usize = 0;
    while n < values.len()
        invariant
            n <= values@.len(),
            T::obeys_add_spec(),
            T::obeys_mul_spec(),
            forall|n: int|
                0 <= n < values@.len() ==> {
                    &&& (#[trigger] values@[n]).mul_req(values@[n])
                    &&& square_sum(values@, zero, n).add_req(values@[n].mul_spec(values@[n]))
                },
            sum == square_sum(values@, zero, n as int),
        decreases values@.len() - n,
    {
        let value: T = values[n];
        proof {
            assert(value == values@[n as int]);
        }
        sum = sum + value * value;
        n = n + 1;
    }
    sum
}

/// A vector with each number divided by its length `norm`; one that is hardly
/// longer than nothing is left as it is.
pub open spec fn unit<T: PartialOrd + Div<Output = T>>(
    values: Seq<T>,
    norm: T,
    smallest: T,
) -> Seq<T> {
    if scalar::gt(norm, smallest) {
        values.map_values(|v: T| v.div_spec(norm))
    } else {
        values
    }
}

/// Scales a vector of length `norm` to length one, unless it is no longer than
/// `smallest`.
pub fn scale_to_unit<T: Copy + PartialOrd + Div<Output = T>>(
    values: Vec<T>,
    norm: T,
    smallest: T,
) -> (scaled: Vec<T>)
    requires
        scalar::ordered::<T>(),
        T::obeys_div_spec(),
        scalar::gt(norm, smallest) ==> forall|k: int|
            0 <= k < values@.len() ==> (#[trigger] values@[k]).div_req(norm),
    ensures
        scaled@ == unit(values@, norm, smallest),
{
    if norm > smallest {
        let mut scaled: Vec<T> = Vec::new();
        let mut k: usize = 0;
        while k < values.len()
            invariant
                k <= values@.len(),
                T::obeys_div_spec(),
                forall|k: int| 0 <= k < values@.len() ==> (#[trigger] values@[k]).div_req(norm),
                scaled@ == values@.take(k as int).map_values(|v: T| v.div_spec(norm)),
            decreases values@.len() - k,
        {
            proof {
                assert(values@[k as int].div_req(norm));
            }
            scaled.push(values[k] / norm);
            k = k + 1;
            proof {
                assert(scaled@ =~= values@.take(k as int).map_values(|v: T| v.div_spec(norm)));
            }
        }
        proof {
            assert(scaled@ =~= values@.map_values(|v: T| v.div_spec(norm)));
        }
        scaled
    } else {
        values
    }
}

/// `zero` and the first `n` numbers, added from the first on.
pub open spec fn sum_of<T: Add<Output = T>>(values: Seq<T>, zero: T, n: int) -> T
    decreases n,
{
    if n <= 0 {
        zero
    } else {
        sum_of(values, zero, n - 1).add_spec(values[n - 1])
    }
}

/// The average of some numbers, where `count` is how many there are.
pub open spec fn mean_of<T: Add<Output = T> + Div<Output = T>>(
    values: Seq<T>,
    zero: T,
    count: T,
) -> T {
    sum_of(values, zero, values.len() as int).div_spec(count)
}

/// The arithmetic behind `mean_of` stays within `T`.
pub open spec fn mean_fits<T: Add<Output = T> + Div<Output = T>>(
    values: Seq<T>,
    zero: T,
    count: T,
) -> bool {
    &&& forall|n: int|
        0 <= n < values.len() ==> (#[trigger] sum_of(values, zero, n)).add_req(values[n])
    &&& sum_of(values, zero, values.len() as int).div_req(count)
}

/// The average of some numbers, where `count` is how many there are.
pub fn mean<T: Copy + Add<Output = T> + Div<Output = T>>(values: &Vec<T>, zero: T, count: T) -> (m:
    T)
    requires
        T::obeys_add_spec(),
        T::obeys_div_spec(),
        mean_fits(values@, zero, count),
    ensures
        m == mean_of(values@, zero, count),
{
    let mut sum: T = zero;
    let mut n: usize = 0;
    while n < values.len()
        invariant
            n <= values@.len(),
            T::obeys_add_spec(),
            mean_fits(values@, zero, count),
            sum == sum_of(values@, zero, n as int),
        decreases values@.len() - n,
    {
        sum = sum + values[n];
        n = n + 1;
    }
    sum / count
}

/// Integers that are not too large, nor too many, can be averaged.
pub proof fn law_small_integers_have_a_mean(values: Seq<i64>, bound: int, count: i64)
    requires
        count > 0,
        bound * values.len() <= i64::MAX,
        forall|k: int| 0 <= k < values.len() ==> -bound <= #[trigger] values[k] <= bound,
    ensures
        mean_fits(values, 0i64, count),
{
    assert forall|n: int| 0 <= n < values.len() implies (#[trigger] sum_of(
        values,
        0i64,
        n,
    )).add_req(values[n]) by {
        lemma_sum_is_bounded(values, bound, n + 1);
        lemma_sum_is_bounded(values, bound, n);
    }
}

proof fn lemma_sum_is_bounded(values: Seq<i64>, bound: int, n: int)
    requires
        bound * values.len() <= i64::MAX,
        forall|k: int| 0 <= k < values.len() ==> -bound <= #[trigger] values[k] <= bound,
        0 <= n <= values.len(),
    ensures
        n > 0 ==> sum_of(values, 0i64, n - 1) + values[n - 1] == sum_of(values, 0i64, n),
        -(bound * n) <= sum_of(values, 0i64, n) <= bound * n,
    decreases n,
{
    if n > 0 {
        lemma_sum_is_bounded(values, bound, n - 1);
        assert(-bound <= values[n - 1] <= bound);
        assert(bound * (n - 1) + bound == bound * n) by (nonlinear_arith);
        assert(bound * n <= bound * values.len()) by (nonlinear_arith)
            requires
                0 <= bound,
                n <= values.len(),
        ;
    }
}

} // verus!
