use diarization::features::{
    centre_bands, feature_tensor, mean, scale_to_unit, squared_norm, BINS,
};
use diarization::tensor::Tensor;
use diarization::types::{DiarizationError, ShapeFault};

#[test]
fn bands_are_centred_on_their_average() {
    let mut features = vec![0.0f32; 2 * BINS];
    for bin in 0..BINS {
        features[bin] = bin as f32;
        features[BINS + bin] = bin as f32 + 4.0;
    }
    let centred = centre_bands(features, 2, 0.0, 2.0);
    for bin in 0..BINS {
        assert_eq!(centred[bin], -2.0);
        assert_eq!(centred[BINS + bin], 2.0);
    }
}

#[test]
fn no_frames_leave_features_as_they_are() {
    assert_eq!(centre_bands(vec![3.0f32], 0, 0.0, 0.0), vec![3.0]);
}

#[test]
fn features_take_the_shape_of_the_model() {
    let tensor = feature_tensor(vec![1.0f32; 3 * BINS], 3, 0.0, 3.0).unwrap();
    assert_eq!((tensor.batch, tensor.rows, tensor.cols), (1, 3, BINS));
    assert_eq!(tensor.data, vec![0.0; 3 * BINS]);
}

#[test]
fn features_that_do_not_fit_are_refused() {
    match feature_tensor(vec![1.0f32; BINS + 1], 1, 0.0, 1.0) {
        Err(DiarizationError::Shape(fault)) => assert_eq!(fault, ShapeFault::IncompatibleShape),
        _ => panic!("a number too many was accepted"),
    }
}

#[test]
fn shapes_are_held_against_the_numbers() {
    let fault = |batch, rows, cols, len: usize| match Tensor::new(batch, rows, cols, vec![0u8; len])
    {
        Err(DiarizationError::Shape(fault)) => Some(fault),
        Err(_) => panic!("another error"),
        Ok(tensor) => {
            assert_eq!(tensor.data, vec![0u8; len]);
            None
        }
    };
    assert_eq!(fault(1, 2, 3, 6), None);
    assert_eq!(fault(1, 2, 3, 7), Some(ShapeFault::IncompatibleShape));
    assert_eq!(fault(1, 2, 3, 5), Some(ShapeFault::OutOfBounds));
    assert_eq!(fault(1, usize::MAX, 2, 5), Some(ShapeFault::Overflow));
    assert_eq!(fault(1, isize::MAX as usize, 1, 5), Some(ShapeFault::OutOfBounds));
    assert_eq!(fault(1, isize::MAX as usize + 1, 1, 5), Some(ShapeFault::Overflow));
    // Lengths of zero do not count in the limit.
    assert_eq!(fault(0, isize::MAX as usize, 1, 0), None);
    assert_eq!(fault(0, isize::MAX as usize, 2, 0), Some(ShapeFault::Overflow));
    assert_eq!(fault(1, 0, 80, 0), None);
}

#[test]
fn shape_keeps_the_order_of_the_numbers() {
    let tensor = Tensor::new(2, 2, 2, vec![8, 7, 6, 5, 4, 3, 2, 1]).unwrap();
    assert_eq!(tensor.data, vec![8, 7, 6, 5, 4, 3, 2, 1]);
}

#[test]
fn vectors_are_scaled_to_length_one() {
    let values = vec![3.0f32, 4.0];
    let norm = squared_norm(&values, 0.0).sqrt();
    assert_eq!(norm, 5.0);
    assert_eq!(scale_to_unit(values, norm, 1e-6), vec![3.0 / 5.0, 4.0 / 5.0]);
}

#[test]
fn vectors_of_hardly_any_length_are_left() {
    assert_eq!(scale_to_unit(vec![1e-7f32], 1e-7, 1e-6), vec![1e-7]);
    assert_eq!(scale_to_unit(vec![1e-6f32], 1e-6, 1e-6), vec![1e-6]);
}

#[test]
fn mean_of_some_numbers() {
    assert_eq!(mean(&vec![1.0f32, 2.0, 6.0], 0.0, 3.0), 3.0);
    assert_eq!(mean(&vec![2.5f32], 0.0, 1.0), 2.5);
}
