//! Making the voice print of a stretch of speech.

use crate::features;
use crate::features::{feature_tensor, scale_to_unit, squared_norm};
use crate::functions;
use crate::functions::divided;
use crate::scalar;
use crate::tensor;
use crate::tensor::{keep_leading, Output, Tensor};
use crate::types::{DiarizationConfig, DiarizationError, ShapeFault, SpeakerEmbedding};
use core::ops::{Add, Div, Mul, Sub};
use vstd::prelude::*;
#[allow(unused_imports)]
use vstd::std_specs::ops::{AddSpec, DivSpec, MulSpec, SubSpec};

verus! {

/// What filtering a stretch of speech leads to: for each frame its bands, where
/// the filter hands them out.
pub type Spectrum<A> = Result<Vec<Option<Vec<A>>>, DiarizationError>;

/// What asking the embedding model leads to.
pub type RawPrint<A> = Result<Vec<A>, DiarizationError>;

/// What making a voice print leads to.
pub type VoicePrint<A> = Result<SpeakerEmbedding<Vec<A>>, DiarizationError>;

/// Makes voice prints.
pub struct EmbeddingExtractor<A, K, Q, F, G> {
    pub zero: A,
    /// A vector that is no longer than this is not scaled.
    pub smallest: A,
    /// The number that stands for a count.
    pub count_of: K,
    /// The square root.
    pub sqrt: Q,
    /// The bank of filters.
    pub filter: F,
    /// The embedding model.
    pub model: G,
}

/// The bands of the first `n` frames, one frame after the other.
pub open spec fn flat<A>(frames: Seq<Option<Vec<A>>>, n: int) -> Seq<A>
    decreases n,
{
    if n <= 0 {
        Seq::empty()
    } else {
        match frames[n - 1] {
            Some(bands) => flat(frames, n - 1) + bands@,
            None => flat(frames, n - 1),
        }
    }
}

/// Puts the bands of all frames behind each other.
fn flatten<A: Copy>(frames: &Vec<Option<Vec<A>>>) -> (all: Vec<A>)
    ensures
        all@ == flat(frames@, frames@.len() as int),
{
    let mut all: Vec<A> = Vec::new();
    let mut n: usize = 0;
    while n < frames.len()
        invariant
            n <= frames@.len(),
            all@ == flat(frames@, n as int),
        decreases frames@.len() - n,
    {
        match &frames[n] {
            Some(bands) => {
                let ghost before = all@;
                let mut i: usize = 0;
                while i < bands.len()
                    invariant
                        i <= bands@.len(),
                        all@ == before + bands@.take(i as int),
                    decreases bands@.len() - i,
                {
                    all.push(bands[i]);
                    i = i + 1;
                    proof {
                        assert(all@ =~= before + bands@.take(i as int));
                    }
                }
                proof {
                    assert(all@ =~= before + bands@);
                }
            },
            None => {},
        }
        n = n + 1;
    }
    all
}

/// What an output of the model comes to, if the model has it: an output that does
/// not have two lengths is refused, and of the others the first batch counts.
pub open spec fn reads_as<A>(output: Option<Output<A>>, raw: RawPrint<A>) -> bool {
    match output {
        None => raw matches Err(error) && error matches DiarizationError::OutputNotFound(name)
            && name@ == "embs"@,
        Some(found) => if found.shape@.len() != 2 {
            raw matches Err(error) && error == DiarizationError::Shape(
                ShapeFault::IncompatibleShape,
            )
        } else {
            raw matches Ok(values) && values@ == tensor::leading(
                found.data@,
                found.shape@[1] as int,
            )
        },
    }
}

/// Reads the numbers of a voice print out of the output of the model, which has at
/// least one batch.
pub fn read_print<A>(output: Option<Output<A>>) -> (raw: RawPrint<A>)
    requires
        output matches Some(found) ==> found.shape@.len() > 0 && found.shape@[0] > 0,
    ensures
        reads_as(output, raw),
{
    match output {
        None => Err(DiarizationError::OutputNotFound("embs".to_owned())),
        Some(found) => {
            if found.shape.len() != 2 {
                return Err(DiarizationError::Shape(ShapeFault::IncompatibleShape));
            }
            Ok(keep_leading(found.data, 1, found.shape[1]))
        },
    }
}

/// The same frames with the same bands, or the same failure.
pub open spec fn same_spectrum<A>(one: Spectrum<A>, other: Spectrum<A>) -> bool {
    match (one, other) {
        (Ok(frames), Ok(again)) => frames@.len() == again@.len() && flat(
            frames@,
            frames@.len() as int,
        ) == flat(again@, again@.len() as int),
        (Err(error), Err(again)) => error.words() == again.words(),
        _ => false,
    }
}

/// The same numbers, or the same failure.
pub open spec fn same_raw<A>(one: RawPrint<A>, other: RawPrint<A>) -> bool {
    match (one, other) {
        (Ok(values), Ok(again)) => values@ == again@,
        (Err(error), Err(again)) => error.words() == again.words(),
        _ => false,
    }
}

/// The same voice print, or the same failure.
pub open spec fn same_print<A>(one: VoicePrint<A>, other: VoicePrint<A>) -> bool {
    match (one, other) {
        (Ok(print), Ok(again)) => print.data@ == again.data@,
        (Err(error), Err(again)) => error.words() == again.words(),
        _ => false,
    }
}

impl<A, K, Q, F, G> EmbeddingExtractor<A, K, Q, F, G> where
    A: Copy + PartialOrd + Add<Output = A> + Sub<Output = A> + Mul<Output = A> + Div<Output = A>,
    K: Fn(usize) -> A,
    Q: Fn(A) -> A,
    F: Fn(&[A]) -> Spectrum<A>,
    G: Fn(&Tensor<A>) -> RawPrint<A>,
 {
    /// The length of a vector.
    pub open spec fn norm(self, values: Seq<A>) -> A {
        functions::value(
            self.sqrt,
            features::square_sum(values, self.zero, values.len() as int),
        )
    }

    /// This is what comes of the answer of the model: a vector of length one.
    pub open spec fn finishes(self, raw: RawPrint<A>, made: VoicePrint<A>) -> bool {
        match raw {
            Err(error) => made matches Err(e) && e == error,
            Ok(values) => made matches Ok(print) && print.data@ == features::unit(
                values@,
                self.norm(values@),
                self.smallest,
            ),
        }
    }

    /// The model is asked about these features of so many frames.
    pub open spec fn asks(self, features: Seq<A>, frames: usize, asked: Tensor<A>) -> bool {
        &&& asked.batch == 1
        &&& asked.rows == frames
        &&& asked.cols == features::BINS
        &&& asked.data@ == features::centred(
            features,
            frames as int,
            self.zero,
            functions::value(self.count_of, frames),
        )
    }

    /// This is what may come of a filtered stretch of speech.
    pub open spec fn continues(self, spectrum: Spectrum<A>, made: VoicePrint<A>) -> bool {
        match spectrum {
            Err(error) => made matches Err(e) && e == error,
            Ok(frames) => {
                let all = flat(frames@, frames@.len() as int);
                match tensor::misfit(1, frames@.len() as usize, features::BINS, all.len()) {
                    Some(fault) => made matches Err(e) && e == DiarizationError::Shape(fault),
                    None => exists|asked: Tensor<A>, raw: RawPrint<A>|
                        self.asks(all, frames@.len() as usize, asked)
                            && #[trigger] self.model.ensures((&asked,), raw) && self.finishes(
                            raw,
                            made,
                        ),
                }
            },
        }
    }

    /// This is what making the voice print of a stretch of speech may come to.
    pub open spec fn extracts(self, samples: Seq<A>, made: VoicePrint<A>) -> bool {
        exists|heard: &[A], spectrum: Spectrum<A>|
            heard@ == samples && #[trigger] self.filter.ensures((heard,), spectrum)
                && self.continues(spectrum, made)
    }

    /// There are bands enough for all frames, and centring them stays within `A`.
    pub open spec fn spectrum_fits(self, frames: Seq<Option<Vec<A>>>) -> bool {
        let all = flat(frames, frames.len() as int);
        &&& all.len() >= frames.len() * features::BINS
        &&& features::centring_fits(
            all,
            frames.len() as int,
            self.zero,
            functions::value(self.count_of, frames.len() as usize),
        )
    }

    /// Scaling a vector stays within `A`.
    pub open spec fn scaling_fits(self, values: Seq<A>) -> bool {
        &&& forall|n: int|
            0 <= n < values.len() ==> {
                &&& (#[trigger] values[n]).mul_req(values[n])
                &&& features::square_sum(values, self.zero, n).add_req(
                    values[n].mul_spec(values[n]),
                )
            }
        &&& scalar::gt(self.norm(values), self.smallest) ==> forall|n: int|
            0 <= n < values.len() ==> (#[trigger] values[n]).div_req(self.norm(values))
    }

    /// The functions can be called, and arithmetic does what is specified.
    pub open spec fn ready(self) -> bool {
        &&& scalar::ordered::<A>()
        &&& A::obeys_add_spec()
        &&& A::obeys_sub_spec()
        &&& A::obeys_mul_spec()
        &&& A::obeys_div_spec()
        &&& functions::steady(self.count_of)
        &&& functions::steady(self.sqrt)
        &&& forall|heard: &[A]| #[trigger] self.filter.requires((heard,))
        &&& forall|asked: &Tensor<A>| #[trigger] self.model.requires((asked,))
        &&& forall|asked: &Tensor<A>, values: Vec<A>| #[trigger]
            self.model.ensures((asked,), Ok(values)) ==> self.scaling_fits(values@)
    }

    /// A voice print can be made of this stretch of speech, whatever the filter and
    /// the model say.
    pub open spec fn fits(self, samples: Seq<A>) -> bool {
        &&& self.ready()
        &&& forall|heard: &[A], frames: Vec<Option<Vec<A>>>|
            heard@ == samples && #[trigger] self.filter.ensures((heard,), Ok(frames))
                ==> self.spectrum_fits(frames@)
    }

    /// An extractor with these functions and this model.
    pub fn new(zero: A, smallest: A, count_of: K, sqrt: Q, filter: F, model: G) -> (extractor: Self)
        ensures
            extractor == (EmbeddingExtractor { zero, smallest, count_of, sqrt, filter, model }),
    {
        EmbeddingExtractor { zero, smallest, count_of, sqrt, filter, model }
    }

    /// A standard extractor, which scales vectors that are longer than a millionth.
    pub fn standard(count_of: K, sqrt: Q, filter: F, model: G) -> (extractor: Self)
        requires
            A::obeys_div_spec(),
            functions::steady(count_of),
            functions::fraction_fits(count_of, 1, 1_000_000),
        ensures
            extractor == (EmbeddingExtractor {
                zero: functions::value(count_of, 0usize),
                smallest: functions::fraction(count_of, 1, 1_000_000),
                count_of,
                sqrt,
                filter,
                model,
            }),
    {
        let zero: A = count_of(0);
        let smallest: A = divided(&count_of, 1, 1_000_000);
        EmbeddingExtractor { zero, smallest, count_of, sqrt, filter, model }
    }

    /// Makes the voice print of a stretch of speech: filters it into bands, takes
    /// from each band its average, asks the model, and scales its answer to length
    /// one.
    pub fn extract_embedding<T>(
        &self,
        samples: &[A],
        _config: &DiarizationConfig<T, A>,
    ) -> (made: VoicePrint<A>)
        requires
            self.fits(samples@),
        ensures
            self.extracts(samples@, made),
    {
        let spectrum: Spectrum<A> = (self.filter)(samples);
        proof {
            assert(self.filter.ensures((samples,), spectrum));
        }
        let frames: Vec<Option<Vec<A>>> = match spectrum {
            Ok(frames) => frames,
            Err(error) => {
                return Err(error);
            },
        };
        let num_frames: usize = frames.len();
        let all: Vec<A> = flatten(&frames);
        let ghost flattened = all@;
        let count: A = (self.count_of)(num_frames);
        let asked: Tensor<A> = match feature_tensor(all, num_frames, self.zero, count) {
            Ok(asked) => asked,
            Err(error) => {
                return Err(error);
            },
        };
        let raw: RawPrint<A> = (self.model)(&asked);
        proof {
            assert(self.asks(flattened, num_frames, asked));
            assert(self.model.ensures((&asked,), raw));
        }
        match raw {
            Err(error) => Err(error),
            Ok(values) => {
                proof {
                    assert(self.scaling_fits(values@));
                }
                let norm: A = (self.sqrt)(squared_norm(values.as_slice(), self.zero));
                Ok(SpeakerEmbedding { data: scale_to_unit(values, norm, self.smallest) })
            },
        }
    }

    /// The filter always says the same of the same samples.
    pub open spec fn filter_repeats(self) -> bool {
        forall|heard: &[A], again: &[A], one: Spectrum<A>, other: Spectrum<A>|
            heard@ == again@ && #[trigger] self.filter.ensures((heard,), one)
                && #[trigger] self.filter.ensures((again,), other) ==> same_spectrum(one, other)
    }

    /// The model always says the same of the same features.
    pub open spec fn model_repeats(self) -> bool {
        forall|asked: Tensor<A>, again: Tensor<A>, one: RawPrint<A>, other: RawPrint<A>|
            asked.batch == again.batch && asked.rows == again.rows && asked.cols == again.cols
                && asked.data@ == again.data@ && #[trigger] self.model.ensures((&asked,), one)
                && #[trigger] self.model.ensures((&again,), other) ==> same_raw(one, other)
    }

    /// Where filter and model always say the same, so does the extractor.
    pub proof fn law_same_speech_has_the_same_print(
        self,
        samples: Seq<A>,
        one: VoicePrint<A>,
        other: VoicePrint<A>,
    )
        requires
            self.filter_repeats(),
            self.model_repeats(),
            self.extracts(samples, one),
            self.extracts(samples, other),
        ensures
            same_print(one, other),
    {
        let (heard, spectrum) = choose|heard: &[A], spectrum: Spectrum<A>|
            heard@ == samples && #[trigger] self.filter.ensures((heard,), spectrum)
                && self.continues(spectrum, one);
        let (again, repeated) = choose|heard: &[A], spectrum: Spectrum<A>|
            heard@ == samples && #[trigger] self.filter.ensures((heard,), spectrum)
                && self.continues(spectrum, other);
        assert(same_spectrum(spectrum, repeated));
    }

    /// The configuration has no part in a voice print: two calls on the same samples
    /// give the same, however they are configured, where filter and model always say
    /// the same.
    pub proof fn law_configuration_does_not_matter<T>(
        self,
        heard: &[A],
        again: &[A],
        config: &DiarizationConfig<T, A>,
        changed: &DiarizationConfig<T, A>,
        one: VoicePrint<A>,
        other: VoicePrint<A>,
    )
        requires
            self.filter_repeats(),
            self.model_repeats(),
            heard@ == again@,
            call_ensures(Self::extract_embedding::<T>, (&self, heard, config), one),
            call_ensures(Self::extract_embedding::<T>, (&self, again, changed), other),
        ensures
            same_print(one, other),
    {
        self.law_same_speech_has_the_same_print(heard@, one, other);
    }
}

} // verus!
