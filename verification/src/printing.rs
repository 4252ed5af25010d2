//! What a voice print is made of, in terms of what was recorded and what the models say.

use crate::embedding;
use crate::embedding::{EmbeddingExtractor, RawPrint, Spectrum, VoicePrint};
use crate::exact;
use crate::features;
use crate::features::centre_bands;
use crate::functions;
use crate::tensor;
use crate::tensor::{Output, Tensor};
use crate::types::{DiarizationConfig, DiarizationError, ShapeFault};
use core::ops::{Add, Div, Mul, Sub};
use vstd::prelude::*;
#[allow(unused_imports)]
use vstd::std_specs::ops::{AddSpec, DivSpec, MulSpec, SubSpec};

verus! {

/// The bands of a frame; a frame that the filter does not hand out has none.
pub open spec fn bands_of<A>(frame: Option<Vec<A>>) -> Seq<A> {
    match frame {
        Some(bands) => bands@,
        None => Seq::empty(),
    }
}

/// How many bands the first `n` frames have.
pub open spec fn bands_before<A>(frames: Seq<Option<Vec<A>>>, n: int) -> int
    decreases n,
{
    if n <= 0 {
        0
    } else {
        bands_before(frames, n - 1) + bands_of(frames[n - 1]).len()
    }
}

/// Where the bands of all frames stand behind each other, those of a frame stand behind
/// all bands of the frames before it, in their order.
pub proof fn law_bands_stand_in_order<A>(frames: Seq<Option<Vec<A>>>, n: int, i: int, j: int)
    requires
        0 <= i < n <= frames.len(),
        0 <= j < bands_of(frames[i]).len(),
    ensures
        0 <= bands_before(frames, i) + j < embedding::flat(frames, n).len(),
        embedding::flat(frames, n)[bands_before(frames, i) + j] == bands_of(frames[i])[j],
    decreases n,
{
    lemma_bands_are_counted(frames, n);
    lemma_bands_are_counted(frames, n - 1);
    lemma_bands_are_counted(frames, i);
    if i < n - 1 {
        law_bands_stand_in_order(frames, n - 1, i, j);
    }
}

proof fn lemma_bands_are_counted<A>(frames: Seq<Option<Vec<A>>>, n: int)
    requires
        0 <= n <= frames.len(),
    ensures
        embedding::flat(frames, n).len() == bands_before(frames, n),
    decreases n,
{
    if n > 0 {
        lemma_bands_are_counted(frames, n - 1);
    }
}

/// The bands of all frames, one frame after the other.
pub open spec fn are_all_bands<A>(frames: Seq<Option<Vec<A>>>, all: Seq<A>) -> bool {
    &&& all.len() == bands_before(frames, frames.len() as int)
    &&& forall|i: int, j: int|
        0 <= i < frames.len() && 0 <= j < bands_of(frames[i]).len() ==> #[trigger] all[bands_before(
            frames,
            i,
        ) + j] == bands_of(frames[i])[j]
}

/// Every frame has as many bands as the embedding model takes.
pub open spec fn all_full<A>(frames: Seq<Option<Vec<A>>>) -> bool {
    forall|i: int|
        0 <= i < frames.len() ==> (#[trigger] frames[i]) is Some && frames[i]->0@.len() == 80
}

proof fn lemma_full_frames<A>(frames: Seq<Option<Vec<A>>>, n: int)
    requires
        all_full(frames),
        0 <= n <= frames.len(),
    ensures
        bands_before(frames, n) == 80 * n,
    decreases n,
{
    if n > 0 {
        lemma_full_frames(frames, n - 1);
        assert(frames[n - 1] is Some && frames[n - 1]->0@.len() == 80);
    }
}

/// Band `j` of each frame.
pub open spec fn band<A>(
    of: spec_fn(A) -> real,
    frames: Seq<Option<Vec<A>>>,
    j: int,
) -> spec_fn(int) -> real {
    |i: int| of(frames[i]->0@[j])
}

/// The model is asked about one batch with a row for each frame, and in it about each
/// band of the frame less the average of that band over all frames.
pub open spec fn is_centred<A>(
    of: spec_fn(A) -> real,
    frames: Seq<Option<Vec<A>>>,
    asked: Tensor<A>,
) -> bool {
    let count = frames.len() as real;
    &&& asked.batch == 1
    &&& asked.rows == frames.len()
    &&& asked.cols == 80
    &&& asked.data@.len() == 80 * frames.len()
    &&& forall|i: int, j: int|
        0 <= i < frames.len() && 0 <= j < 80 ==> (of(frames[i]->0@[j]) - of(
            #[trigger] asked.data@[80 * i + j],
        )) * count == exact::sum(band(of, frames, j), frames.len() as int)
}

/// The model is asked about these numbers, eighty to a row, each less the average of
/// those that stand at its place in all rows.
pub open spec fn is_centred_by_place<A>(
    of: spec_fn(A) -> real,
    all: Seq<A>,
    rows: int,
    asked: Tensor<A>,
) -> bool {
    &&& asked.batch == 1
    &&& asked.rows == rows
    &&& asked.cols == 80
    &&& asked.data@.len() == all.len()
    &&& forall|i: int, j: int|
        0 <= i < rows && 0 <= j < 80 ==> (of(all[80 * i + j]) - of(
            #[trigger] asked.data@[80 * i + j],
        )) * (rows as real) == exact::sum(every_eightieth(of, all, j), rows)
}

/// Number `at` of every eighty, from the first on.
pub open spec fn every_eightieth<A>(
    of: spec_fn(A) -> real,
    values: Seq<A>,
    at: int,
) -> spec_fn(int) -> real {
    |i: int| of(values[80 * i + at])
}

proof fn lemma_band_sum_is_a_sum<A: Add<Output = A>>(
    of: spec_fn(A) -> real,
    values: Seq<A>,
    zero: A,
    bin: int,
    n: int,
)
    requires
        exact::adds(of),
        of(zero) == 0real,
    ensures
        of(features::band_sum(values, zero, bin, n)) == exact::sum(
            every_eightieth(of, values, bin),
            n,
        ),
    decreases n,
{
    if n > 0 {
        lemma_band_sum_is_a_sum(of, values, zero, bin, n - 1);
        assert((n - 1) * features::BINS + bin == 80 * (n - 1) + bin);
    }
}

proof fn lemma_centred<A: Add<Output = A> + Sub<Output = A> + Div<Output = A>>(
    of: spec_fn(A) -> real,
    values: Seq<A>,
    frames: int,
    zero: A,
    count: A,
    i: int,
    j: int,
)
    requires
        exact::adds(of),
        exact::subtracts(of),
        exact::divides(of),
        of(zero) == 0real,
        of(count) == frames as real,
        80 * frames <= values.len(),
        0 <= i < frames,
        0 <= j < 80,
    ensures
        (of(values[80 * i + j]) - of(
            features::centred(values, frames, zero, count)[80 * i + j],
        )) * (frames as real) == exact::sum(every_eightieth(of, values, j), frames),
{
    let at = 80 * i + j;
    assert(at % 80 == j);
    assert(at < frames * 80) by (nonlinear_arith)
        requires
            at == 80 * i + j,
            i < frames,
            j < 80,
    ;
    lemma_band_sum_is_a_sum(of, values, zero, j, frames);
    let mean = features::band_mean(values, frames, zero, count, j);
    assert(of(mean) * of(count) == of(features::band_sum(values, zero, j, frames)));
    assert(features::centred(values, frames, zero, count)[at] == values[at].sub_spec(mean));
    let (v, m) = (of(values[at]), of(mean));
    assert(v - (v - m) == m);
}

/// Centring takes from every number the average of its band over all frames, so that a
/// band adds up to nothing then; numbers behind the last frame stay as they are.
pub proof fn law_centring_takes_the_average_of_each_band<A>(
    of: spec_fn(A) -> real,
    values: Vec<A>,
    frames: usize,
    zero: A,
    count: A,
    out: Vec<A>,
) where A: Copy + Add<Output = A> + Sub<Output = A> + Div<Output = A>
    requires
        exact::adds(of),
        exact::subtracts(of),
        exact::divides(of),
        of(zero) == 0real,
        of(count) == frames as real,
        80 * frames <= values@.len(),
        call_ensures(centre_bands::<A>, (values, frames, zero, count), out),
    ensures
        out@.len() == values@.len(),
        forall|i: int, j: int|
            0 <= i < frames && 0 <= j < 80 ==> (of(values@[80 * i + j]) - of(
                #[trigger] out@[80 * i + j],
            )) * (frames as real) == exact::sum(every_eightieth(of, values@, j), frames as int),
        forall|j: int|
            0 <= j < 80 && frames > 0 ==> exact::sum(
                #[trigger] every_eightieth(of, out@, j),
                frames as int,
            ) == 0real,
        forall|at: int| 80 * frames <= at < values@.len() ==> #[trigger] out@[at] == values@[at],
{
    assert forall|i: int, j: int| 0 <= i < frames && 0 <= j < 80 implies (of(
        values@[80 * i + j],
    ) - of(#[trigger] out@[80 * i + j])) * (frames as real) == exact::sum(
        every_eightieth(of, values@, j),
        frames as int,
    ) by {
        lemma_centred(of, values@, frames as int, zero, count, i, j);
    }
    assert forall|j: int| 0 <= j < 80 && frames > 0 implies exact::sum(
        #[trigger] every_eightieth(of, out@, j),
        frames as int,
    ) == 0real by {
        let total = exact::sum(every_eightieth(of, values@, j), frames as int);
        lemma_less_the_average(
            every_eightieth(of, values@, j),
            every_eightieth(of, out@, j),
            total,
            frames as int,
            frames as int,
        );
        let (rest, count) = (
            exact::sum(every_eightieth(of, out@, j), frames as int),
            frames as real,
        );
        assert(rest == 0real) by (nonlinear_arith)
            requires
                (total - rest) * count == count * total,
                count > 0real,
        ;
    }
}

/// If each term of one sum is less than that of another by one part in `parts` of
/// `total`, the sums of the first `n` differ by `n` such parts.
proof fn lemma_less_the_average(
    f: spec_fn(int) -> real,
    g: spec_fn(int) -> real,
    total: real,
    parts: int,
    n: int,
)
    requires
        0 <= n,
        forall|i: int| 0 <= i < n ==> (#[trigger] f(i) - g(i)) * (parts as real) == total,
    ensures
        (exact::sum(f, n) - exact::sum(g, n)) * (parts as real) == (n as real) * total,
    decreases n,
{
    let p = parts as real;
    if n > 0 {
        lemma_less_the_average(f, g, total, parts, n - 1);
        assert((f(n - 1) - g(n - 1)) * p == total);
        let (a, b) = (exact::sum(f, n - 1) - exact::sum(g, n - 1), f(n - 1) - g(n - 1));
        let (m, k) = (n as real, (n - 1) as real);
        assert(exact::sum(f, n) - exact::sum(g, n) == a + b);
        assert((a + b) * p == m * total) by (nonlinear_arith)
            requires
                a * p == k * total,
                b * p == total,
                m == k + 1real,
        ;
    } else {
        assert(0real * p == 0real && 0real * total == 0real) by (nonlinear_arith);
    }
}

/// The square of each number.
pub open spec fn squares<A>(of: spec_fn(A) -> real, values: Seq<A>) -> spec_fn(int) -> real {
    |k: int| of(values[k]) * of(values[k])
}

/// The square of the length of a vector.
pub open spec fn length_squared<A>(of: spec_fn(A) -> real, values: Seq<A>) -> real {
    exact::sum(squares(of, values), values.len() as int)
}

/// The root of a number is taken.
pub open spec fn roots<A, Q: Fn(A) -> A>(of: spec_fn(A) -> real, sqrt: Q) -> bool {
    forall|x: A|
        of(x) >= 0real ==> {
            let root = of(#[trigger] functions::value(sqrt, x));
            root >= 0real && root * root == of(x)
        }
}

/// This is the length of a vector.
pub open spec fn is_length<A>(of: spec_fn(A) -> real, values: Seq<A>, length: real) -> bool {
    length >= 0real && length * length == length_squared(of, values)
}

/// The print has the direction of the vector and length one; a vector that is no longer
/// than `smallest` is left as it is.
pub open spec fn is_scaled<A>(
    of: spec_fn(A) -> real,
    values: Seq<A>,
    smallest: real,
    print: Seq<A>,
) -> bool {
    exists|length: real| #[trigger]
        is_length(of, values, length) && if length > smallest {
            &&& print.len() == values.len()
            &&& forall|k: int|
                0 <= k < values.len() ==> of(#[trigger] print[k]) * length == of(values[k])
            &&& length_squared(of, print) == 1real
        } else {
            print == values
        }
}

proof fn lemma_square_sum_is_a_sum<A: Add<Output = A> + Mul<Output = A>>(
    of: spec_fn(A) -> real,
    values: Seq<A>,
    zero: A,
    n: int,
)
    requires
        exact::adds(of),
        exact::multiplies(of),
        of(zero) == 0real,
    ensures
        of(features::square_sum(values, zero, n)) == exact::sum(squares(of, values), n),
        exact::sum(squares(of, values), n) >= 0real,
    decreases n,
{
    if n > 0 {
        lemma_square_sum_is_a_sum(of, values, zero, n - 1);
        let v = of(values[n - 1]);
        assert(v * v >= 0real) by (nonlinear_arith);
    }
}

/// Scaling every number scales the sum of the squares.
proof fn lemma_squares_are_scaled<A>(
    of: spec_fn(A) -> real,
    values: Seq<A>,
    print: Seq<A>,
    length: real,
    n: int,
)
    requires
        n <= values.len(),
        forall|k: int| 0 <= k < values.len() ==> of(#[trigger] print[k]) * length == of(values[k]),
    ensures
        exact::sum(squares(of, print), n) * (length * length) == exact::sum(squares(of, values), n),
    decreases n,
{
    if n > 0 {
        lemma_squares_are_scaled(of, values, print, length, n - 1);
        let a = exact::sum(squares(of, print), n - 1);
        let b = exact::sum(squares(of, values), n - 1);
        let (p, v) = (of(print[n - 1]), of(values[n - 1]));
        assert((a + p * p) * (length * length) == b + v * v) by (nonlinear_arith)
            requires
                a * (length * length) == b,
                p * length == v,
        ;
    } else {
        assert(0real * (length * length) == 0real) by (nonlinear_arith);
    }
}

/// What the model is asked, and what becomes of its answer: failures are passed on, and
/// a vector is scaled to length one.
pub open spec fn is_made_of<A>(
    of: spec_fn(A) -> real,
    smallest: real,
    raw: RawPrint<A>,
    made: VoicePrint<A>,
) -> bool {
    match raw {
        Err(error) => made matches Err(e) && e == error,
        Ok(values) => made matches Ok(print) && is_scaled(of, values@, smallest, print.data@),
    }
}

impl<A, K, Q, F, G> EmbeddingExtractor<A, K, Q, F, G> where
    A: Copy + PartialOrd + Add<Output = A> + Sub<Output = A> + Mul<Output = A> + Div<Output = A>,
    K: Fn(usize) -> A,
    Q: Fn(A) -> A,
    F: Fn(&[A]) -> Spectrum<A>,
    G: Fn(&Tensor<A>) -> RawPrint<A>,
 {
    /// The extractor computes with exact numbers.
    pub open spec fn is_exact(self, of: spec_fn(A) -> real) -> bool {
        &&& exact::adds(of)
        &&& exact::subtracts(of)
        &&& exact::multiplies(of)
        &&& exact::divides(of)
        &&& exact::compares(of)
        &&& exact::counts(of, self.count_of)
        &&& roots(of, self.sqrt)
        &&& of(self.zero) == 0real
        &&& of(self.smallest) >= 0real
    }

    /// The voice print is made of what the filter says of the samples: of the bands of
    /// each frame, less the average of each band over all frames, the model makes a
    /// vector, and the print is that vector scaled to length one. What the filter or the
    /// model fails with is passed on, and a spectrum that has not eighty bands for each
    /// frame is refused.
    pub open spec fn is_print_of(
        self,
        of: spec_fn(A) -> real,
        spectrum: Spectrum<A>,
        made: VoicePrint<A>,
    ) -> bool {
        match spectrum {
            Err(error) => made matches Err(e) && e == error,
            Ok(frames) => {
                let n = frames@.len() as int;
                &&& all_full(frames@) && 80 * n <= isize::MAX ==> exists|
                    asked: Tensor<A>,
                    raw: RawPrint<A>,
                | #[trigger]
                    self.model.ensures((&asked,), raw) && is_centred(of, frames@, asked)
                        && is_made_of(of, of(self.smallest), raw, made)
                &&& bands_before(frames@, n) == 80 * n && 80 * n <= isize::MAX ==> exists|
                    all: Seq<A>,
                    asked: Tensor<A>,
                    raw: RawPrint<A>,
                |
                    #[trigger] are_all_bands(frames@, all) && #[trigger] self.model.ensures(
                        (&asked,),
                        raw,
                    ) && is_centred_by_place(of, all, n, asked) && is_made_of(
                        of,
                        of(self.smallest),
                        raw,
                        made,
                    )
                &&& bands_before(frames@, n) > 80 * n && 80 * n <= isize::MAX ==> (made matches Err(
                    e,
                ) && e == DiarizationError::Shape(ShapeFault::IncompatibleShape))
            },
        }
    }

    /// A vector that the model makes is scaled to length one.
    pub proof fn law_vectors_are_scaled_to_length_one(
        self,
        of: spec_fn(A) -> real,
        raw: RawPrint<A>,
        made: VoicePrint<A>,
    )
        requires
            self.is_exact(of),
            self.finishes(raw, made),
        ensures
            is_made_of(of, of(self.smallest), raw, made),
    {
        if let (Ok(values), Ok(print)) = (raw, made) {
            let n = values@.len() as int;
            lemma_square_sum_is_a_sum(of, values@, self.zero, n);
            let norm = self.norm(values@);
            let length = of(norm);
            assert(is_length(of, values@, length));
            if length > of(self.smallest) {
                assert forall|k: int| 0 <= k < n implies of(#[trigger] print.data@[k]) * length
                    == of(values@[k]) by {
                    assert(print.data@[k] == values@[k].div_spec(norm));
                }
                lemma_squares_are_scaled(of, values@, print.data@, length, n);
                let ones = length_squared(of, print.data@);
                assert(ones == 1real) by (nonlinear_arith)
                    requires
                        ones * (length * length) == length * length,
                        length > 0real,
                ;
            }
        }
    }

    /// What may come of a filtered stretch of speech is made of its bands.
    pub proof fn law_prints_are_made_of_the_bands(
        self,
        of: spec_fn(A) -> real,
        spectrum: Spectrum<A>,
        made: VoicePrint<A>,
    )
        requires
            self.is_exact(of),
            self.continues(spectrum, made),
        ensures
            self.is_print_of(of, spectrum, made),
    {
        if let Ok(frames) = spectrum {
            let n = frames@.len() as int;
            let all = embedding::flat(frames@, n);
            lemma_bands_are_counted(frames@, n);
            if all.len() == 80 * n && 80 * n <= isize::MAX {
                assert(tensor::misfit(1, n as usize, features::BINS, all.len()) is None);
                let (asked, raw) = choose|asked: Tensor<A>, raw: RawPrint<A>|
                    self.asks(all, n as usize, asked) && #[trigger] self.model.ensures(
                        (&asked,),
                        raw,
                    ) && self.finishes(raw, made);
                let count = functions::value(self.count_of, n as usize);
                assert forall|i: int, j: int| 0 <= i < n && 0 <= j < 80 implies (of(
                    all[80 * i + j],
                ) - of(#[trigger] asked.data@[80 * i + j])) * (n as real) == exact::sum(
                    every_eightieth(of, all, j),
                    n,
                ) by {
                    lemma_centred(of, all, n, self.zero, count, i, j);
                }
                assert forall|i: int, j: int|
                    0 <= i < n && 0 <= j < bands_of(frames@[i]).len() implies #[trigger] all[
                bands_before(frames@, i) + j] == bands_of(frames@[i])[j] by {
                    law_bands_stand_in_order(frames@, n, i, j);
                }
                assert(are_all_bands(frames@, all));
                self.law_vectors_are_scaled_to_length_one(of, raw, made);
                assert(self.model.ensures((&asked,), raw));
            }
            if all_full(frames@) && 80 * n <= isize::MAX {
                lemma_full_frames(frames@, n);
                assert(tensor::misfit(1, n as usize, features::BINS, all.len()) is None);
                let (asked, raw) = choose|asked: Tensor<A>, raw: RawPrint<A>|
                    self.asks(all, n as usize, asked) && #[trigger] self.model.ensures(
                        (&asked,),
                        raw,
                    ) && self.finishes(raw, made);
                let count = functions::value(self.count_of, n as usize);
                assert forall|i: int, j: int| 0 <= i < n && 0 <= j < 80 implies (of(
                    frames@[i]->0@[j],
                ) - of(#[trigger] asked.data@[80 * i + j])) * (n as real) == exact::sum(
                    band(of, frames@, j),
                    n,
                ) by {
                    lemma_centred(of, all, n, self.zero, count, i, j);
                    assert forall|k: int| 0 <= k < n implies #[trigger] every_eightieth(
                        of,
                        all,
                        j,
                    )(k) == band(of, frames@, j)(k) by {
                        lemma_full_frames(frames@, k);
                        assert(frames@[k] is Some && frames@[k]->0@.len() == 80);
                        law_bands_stand_in_order(frames@, n, k, j);
                    }
                    exact::lemma_sum_same(every_eightieth(of, all, j), band(of, frames@, j), n);
                    assert(every_eightieth(of, all, j)(i) == band(of, frames@, j)(i));
                }
                assert(is_centred(of, frames@, asked));
                self.law_vectors_are_scaled_to_length_one(of, raw, made);
                assert(self.model.ensures((&asked,), raw));
            }
        }
    }

    /// The extractor asks the filter about exactly the samples that it is given, and
    /// makes the voice print of what the filter says.
    pub proof fn law_extractor_prints_what_it_hears<T>(
        self,
        of: spec_fn(A) -> real,
        samples: &[A],
        config: &DiarizationConfig<T, A>,
        made: VoicePrint<A>,
    )
        requires
            self.is_exact(of),
            call_ensures(Self::extract_embedding::<T>, (&self, samples, config), made),
        ensures
            exists|heard: &[A], spectrum: Spectrum<A>| #[trigger]
                self.filter.ensures((heard,), spectrum) && heard@ == samples@ && self.is_print_of(
                    of,
                    spectrum,
                    made,
                ),
    {
        let (heard, spectrum) = choose|heard: &[A], spectrum: Spectrum<A>|
            heard@ == samples@ && #[trigger] self.filter.ensures((heard,), spectrum)
                && self.continues(spectrum, made);
        self.law_prints_are_made_of_the_bands(of, spectrum, made);
        assert(self.filter.ensures((heard,), spectrum));
    }
}

/// Of an output of the embedding model with two lengths, the first row is the vector:
/// number for number, as many as the second length says.
pub proof fn law_first_row_is_the_vector<A>(output: Output<A>, raw: RawPrint<A>)
    requires
        output.shape@.len() == 2,
        output.shape@[0] > 0,
        output.data@.len() == output.shape@[0] * output.shape@[1],
        call_ensures(embedding::read_print::<A>, (Some(output),), raw),
    ensures
        raw matches Ok(values) && values@.len() == output.shape@[1] && forall|i: int|
            0 <= i < values@.len() ==> #[trigger] values@[i] == output.data@[i],
{
    assert(output.shape@[0] * output.shape@[1] >= output.shape@[1]) by (nonlinear_arith)
        requires
            output.shape@[0] > 0,
            output.shape@[1] >= 0,
    ;
}

/// The standard extractor scales vectors that are longer than a millionth, and counts
/// from nothing.
pub proof fn law_standard_extractor<A, K, Q, F, G>(
    of: spec_fn(A) -> real,
    count_of: K,
    sqrt: Q,
    filter: F,
    model: G,
    extractor: EmbeddingExtractor<A, K, Q, F, G>,
) where
    A: Copy + PartialOrd + Add<Output = A> + Sub<Output = A> + Mul<Output = A> + Div<Output = A>,
    K: Fn(usize) -> A,
    Q: Fn(A) -> A,
    F: Fn(&[A]) -> Spectrum<A>,
    G: Fn(&Tensor<A>) -> RawPrint<A>,

    requires
        exact::divides(of),
        exact::counts(of, count_of),
        call_ensures(
            EmbeddingExtractor::<A, K, Q, F, G>::standard,
            (count_of, sqrt, filter, model),
            extractor,
        ),
    ensures
        of(extractor.zero) == 0real,
        1000000real * of(extractor.smallest) == 1real,
        extractor.count_of == count_of,
        extractor.sqrt == sqrt,
        extractor.filter == filter,
        extractor.model == model,
{
    exact::lemma_fraction_is(of, count_of, 1, 1_000_000, 1real, 1000000real);
}

} // verus!
