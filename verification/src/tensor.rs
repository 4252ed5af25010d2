//! Blocks of numbers in the shape that a model takes.

use crate::types::{DiarizationError, ShapeFault};
use vstd::prelude::*;

verus! {

/// A block of `batch` times `rows` times `cols` numbers, in that order.
#[derive(Debug)]
pub struct Tensor<T> {
    pub batch: usize,
    pub rows: usize,
    pub cols: usize,
    pub data: Vec<T>,
}

impl<T> Tensor<T> {
    /// The block holds as many numbers as its shape asks for.
    pub open spec fn valid(&self) -> bool {
        self.data@.len() == self.batch * self.rows * self.cols
    }
}

/// A length that counts in the size limit of an array: lengths of zero do not.
pub open spec fn extent(length: usize) -> int {
    if length == 0 {
        1
    } else {
        length as int
    }
}

/// What keeps `len` numbers from having this shape, if anything does.
pub open spec fn misfit(batch: usize, rows: usize, cols: usize, len: nat) -> Option<ShapeFault> {
    if extent(batch) * extent(rows) * extent(cols) > isize::MAX {
        Some(ShapeFault::Overflow)
    } else if batch * rows * cols > len {
        Some(ShapeFault::OutOfBounds)
    } else if batch * rows * cols < len {
        Some(ShapeFault::IncompatibleShape)
    } else {
        None
    }
}

/// Calls `ndarray::Array3::from_shape_vec` and hands the numbers back.
///
/// Trusted: the call refuses a shape whose non-zero lengths multiply to more than
/// `isize::MAX` (`Overflow`), then one that asks for more numbers than there are
/// (`OutOfBounds`), then one that asks for fewer (`IncompatibleShape`); it accepts
/// every other, and keeps the numbers and their order.
#[verifier::external_body]
fn shaped<T>(batch: usize, rows: usize, cols: usize, data: Vec<T>) -> (kept: Result<
    Vec<T>,
    ShapeFault,
>)
    ensures
        match misfit(batch, rows, cols, data@.len()) {
            Some(fault) => kept == Err::<Vec<T>, ShapeFault>(fault),
            None => kept matches Ok(numbers) && numbers@ == data@,
        },
{
    match ndarray::Array3::from_shape_vec((batch, rows, cols), data) {
        Ok(array) => Ok(array.into_raw_vec_and_offset().0),
        Err(error) => match error.kind() {
            ndarray::ErrorKind::IncompatibleShape => Err(ShapeFault::IncompatibleShape),
            ndarray::ErrorKind::IncompatibleLayout => Err(ShapeFault::IncompatibleLayout),
            ndarray::ErrorKind::RangeLimited => Err(ShapeFault::RangeLimited),
            ndarray::ErrorKind::OutOfBounds => Err(ShapeFault::OutOfBounds),
            ndarray::ErrorKind::Overflow => Err(ShapeFault::Overflow),
            _ => Err(ShapeFault::Unsupported),
        },
    }
}

impl<T> Tensor<T> {
    /// Gives numbers a shape, or says why they do not fit it.
    pub fn new(batch: usize, rows: usize, cols: usize, data: Vec<T>) -> (made: Result<
        Self,
        DiarizationError,
    >)
        ensures
            match misfit(batch, rows, cols, data@.len()) {
                Some(fault) => made == Err::<Self, DiarizationError>(
                    DiarizationError::Shape(fault),
                ),
                None => made matches Ok(tensor) && tensor.valid() && tensor.batch == batch
                    && tensor.rows == rows && tensor.cols == cols && tensor.data@ == data@,
            },
    {
        match shaped(batch, rows, cols, data) {
            Ok(data) => Ok(Tensor { batch, rows, cols, data }),
            Err(fault) => Err(DiarizationError::Shape(fault)),
        }
    }
}

/// What a model puts out: numbers of a shape with any number of lengths.
#[derive(Debug)]
pub struct Output<T> {
    pub shape: Vec<usize>,
    pub data: Vec<T>,
}

/// The first `count` numbers, or all if there are fewer.
pub open spec fn leading<T>(data: Seq<T>, count: int) -> Seq<T> {
    if count < data.len() {
        data.take(count)
    } else {
        data
    }
}

/// Keeps the first `rows` times `cols` numbers, or all if there are fewer.
pub(crate) fn keep_leading<T>(data: Vec<T>, rows: usize, cols: usize) -> (kept: Vec<T>)
    ensures
        kept@ == leading(data@, rows * cols),
{
    let mut kept: Vec<T> = data;
    let available: usize = kept.len();
    if let Some(count) = rows.checked_mul(cols) {
        if count < available {
            kept.truncate(count);
        }
    }
    kept
}

} // verus!
