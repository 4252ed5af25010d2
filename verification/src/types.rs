//! The values that the stages of the pipeline hand to each other.

use crate::exact;
use crate::functions;
use crate::functions::divided;
use crate::text;
use crate::text::concatenated;
use core::ops::Div;
use vstd::prelude::*;
#[allow(unused_imports)]
use vstd::std_specs::ops::DivSpec;

verus! {

/// A stretch of the recording that belongs to one speaker.
#[derive(Debug)]
pub struct DiarizationSegment<T> {
    /// When the stretch starts, in seconds.
    pub start: T,
    /// When the stretch ends, in seconds.
    pub end: T,
    /// Who speaks: 0, 1, 2 and so on.
    pub speaker_id: usize,
}

impl<T: Copy> Copy for DiarizationSegment<T> {

}

impl<T: Copy> Clone for DiarizationSegment<T> {
    fn clone(&self) -> (copy: Self)
        ensures
            copy == *self,
    {
        *self
    }
}

/// The voice print of one stretch of speech.
#[derive(Debug, Clone)]
pub struct SpeakerEmbedding<E> {
    /// The vector, scaled to length one.
    pub data: E,
}

/// How a recording is to be diarized.
#[derive(Debug)]
pub struct DiarizationConfig<T, S> {
    /// How long a window is that the segmentation model looks at, in seconds.
    pub segmentation_window_secs: T,
    /// How far apart windows start, in seconds.
    pub segmentation_hop_secs: T,
    /// How far apart voice prints of one speaker may be on average.
    pub clustering_threshold: S,
    /// How many samples the recording has in a second.
    pub sample_rate: u32,
}

impl<T: Div<Output = T>, S: Div<Output = S>> DiarizationConfig<T, S> {
    /// The standard configuration: windows of ten seconds that start half a second
    /// apart, voice prints of one speaker less than four fifths apart on average, and
    /// 16000 samples in a second. `time_of` and `number_of` turn a count into a time
    /// and a number.
    pub fn standard<N: Fn(usize) -> T, K: Fn(usize) -> S>(time_of: &N, number_of: &K) -> (config:
        Self)
        requires
            T::obeys_div_spec(),
            S::obeys_div_spec(),
            functions::steady(*time_of),
            functions::steady(*number_of),
            functions::fraction_fits(*time_of, 1, 2),
            functions::fraction_fits(*number_of, 4, 5),
        ensures
            config.segmentation_window_secs == functions::value(*time_of, 10usize),
            config.segmentation_hop_secs == functions::fraction(*time_of, 1, 2),
            config.clustering_threshold == functions::fraction(*number_of, 4, 5),
            config.sample_rate == 16000,
    {
        DiarizationConfig {
            segmentation_window_secs: time_of(10),
            segmentation_hop_secs: divided(time_of, 1, 2),
            clustering_threshold: divided(number_of, 4, 5),
            sample_rate: 16000,
        }
    }
}

/// What is wrong with the shape of an array.
#[derive(Debug, Clone, Copy, PartialEq, Eq, Structural)]
pub enum ShapeFault {
    IncompatibleShape,
    IncompatibleLayout,
    RangeLimited,
    OutOfBounds,
    Unsupported,
    Overflow,
}

/// Why a recording could not be diarized.
#[derive(Debug)]
pub enum DiarizationError {
    /// The inference runtime failed.
    Ort(String),
    /// A file could not be read.
    Io(String),
    /// An array does not have the shape that it should have.
    Shape(ShapeFault),
    /// A model lacks this input.
    InputNotFound(String),
    /// A model lacks this output.
    OutputNotFound(String),
    /// No features could be extracted.
    FeatureExtraction(String),
}

impl ShapeFault {
    /// The name of a fault and what it means.
    pub open spec fn words(self) -> Seq<char> {
        match self {
            ShapeFault::IncompatibleShape => "ShapeError/IncompatibleShape: incompatible shapes"@,
            ShapeFault::IncompatibleLayout =>
                "ShapeError/IncompatibleLayout: incompatible memory layout"@,
            ShapeFault::RangeLimited =>
                "ShapeError/RangeLimited: the shape does not fit in type limits"@,
            ShapeFault::OutOfBounds => "ShapeError/OutOfBounds: out of bounds indexing"@,
            ShapeFault::Unsupported => "ShapeError/Unsupported: unsupported operation"@,
            ShapeFault::Overflow => "ShapeError/Overflow: arithmetic overflow"@,
        }
    }

    /// The name of a fault and what it means.
    pub fn message(&self) -> (text: &'static str)
        ensures
            text@ == self.words(),
    {
        match self {
            ShapeFault::IncompatibleShape => "ShapeError/IncompatibleShape: incompatible shapes",
            ShapeFault::IncompatibleLayout =>
                "ShapeError/IncompatibleLayout: incompatible memory layout",
            ShapeFault::RangeLimited =>
                "ShapeError/RangeLimited: the shape does not fit in type limits",
            ShapeFault::OutOfBounds => "ShapeError/OutOfBounds: out of bounds indexing",
            ShapeFault::Unsupported => "ShapeError/Unsupported: unsupported operation",
            ShapeFault::Overflow => "ShapeError/Overflow: arithmetic overflow",
        }
    }
}

impl DiarizationError {
    /// What kind of error it is, and its particulars.
    pub open spec fn words(self) -> Seq<char> {
        match self {
            DiarizationError::Ort(detail) => "ORT error: "@ + detail@,
            DiarizationError::Io(detail) => "I/O error: "@ + detail@,
            DiarizationError::Shape(fault) => "ndarray shape/dimensionality error: "@
                + fault.words(),
            DiarizationError::InputNotFound(name) => "Model input not found: "@ + name@,
            DiarizationError::OutputNotFound(name) => "Model output not found: "@ + name@,
            DiarizationError::FeatureExtraction(detail) => "Feature extraction error: "@ + detail@,
        }
    }

    /// What kind of error it is, and its particulars.
    pub fn message(&self) -> (text: String)
        ensures
            text@ == self.words(),
    {
        match self {
            DiarizationError::Ort(detail) => concatenated("ORT error: ", detail.as_str()),
            DiarizationError::Io(detail) => concatenated("I/O error: ", detail.as_str()),
            DiarizationError::Shape(fault) => concatenated(
                "ndarray shape/dimensionality error: ",
                fault.message(),
            ),
            DiarizationError::InputNotFound(name) => concatenated(
                "Model input not found: ",
                name.as_str(),
            ),
            DiarizationError::OutputNotFound(name) => concatenated(
                "Model output not found: ",
                name.as_str(),
            ),
            DiarizationError::FeatureExtraction(detail) => concatenated(
                "Feature extraction error: ",
                detail.as_str(),
            ),
        }
    }
}

/// In the standard configuration windows last ten seconds and start half a second apart,
/// voice prints of one speaker are less than four fifths apart, and there are 16000
/// samples in a second.
pub proof fn law_standard_configuration<T, S, N, K>(
    time_of: spec_fn(T) -> real,
    of: spec_fn(S) -> real,
    times: &N,
    numbers: &K,
    config: DiarizationConfig<T, S>,
) where T: Div<Output = T>, S: Div<Output = S>, N: Fn(usize) -> T, K: Fn(usize) -> S
    requires
        exact::divides(time_of),
        exact::divides(of),
        exact::counts(time_of, *times),
        exact::counts(of, *numbers),
        call_ensures(DiarizationConfig::<T, S>::standard::<N, K>, (times, numbers), config),
    ensures
        time_of(config.segmentation_window_secs) == 10real,
        2real * time_of(config.segmentation_hop_secs) == 1real,
        5real * of(config.clustering_threshold) == 4real,
        config.sample_rate == 16000,
{
    exact::lemma_fraction_is(time_of, *times, 1, 2, 1real, 2real);
    exact::lemma_fraction_is(of, *numbers, 4, 5, 4real, 5real);
}

/// The message of an error ends with its particulars.
pub proof fn law_messages_end_with_particulars(error: DiarizationError, message: String)
    requires
        call_ensures(DiarizationError::message, (&error,), message),
    ensures
        match error {
            DiarizationError::Ort(detail) => text::ends_with(message@, detail@),
            DiarizationError::Io(detail) => text::ends_with(message@, detail@),
            DiarizationError::Shape(fault) => text::ends_with(message@, fault.words()),
            DiarizationError::InputNotFound(name) => text::ends_with(message@, name@),
            DiarizationError::OutputNotFound(name) => text::ends_with(message@, name@),
            DiarizationError::FeatureExtraction(detail) => text::ends_with(message@, detail@),
        },
{
    match error {
        DiarizationError::Ort(detail) => text::lemma_ends_with("ORT error: "@, detail@),
        DiarizationError::Io(detail) => text::lemma_ends_with("I/O error: "@, detail@),
        DiarizationError::Shape(fault) => text::lemma_ends_with(
            "ndarray shape/dimensionality error: "@,
            fault.words(),
        ),
        DiarizationError::InputNotFound(name) => text::lemma_ends_with(
            "Model input not found: "@,
            name@,
        ),
        DiarizationError::OutputNotFound(name) => text::lemma_ends_with(
            "Model output not found: "@,
            name@,
        ),
        DiarizationError::FeatureExtraction(detail) => text::lemma_ends_with(
            "Feature extraction error: "@,
            detail@,
        ),
    }
}

} // verus!
