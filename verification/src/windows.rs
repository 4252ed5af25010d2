//! Cutting the recording into overlapping windows.

use crate::tensor;
use crate::tensor::Tensor;
use crate::types::DiarizationError;
use vstd::prelude::*;

verus! {

/// How many steps of `hop` start before `total`.
pub open spec fn window_count(total: int, hop: int) -> int {
    (total + hop - 1) / hop
}

/// The sample at which each window starts: every `hop` samples from 0, as long as
/// there are samples.
pub fn window_starts(total: usize, hop: usize) -> (starts: Vec<usize>)
    requires
        hop > 0,
    ensures
        starts@.len() == window_count(total as int, hop as int),
        forall|k: int| 0 <= k < starts@.len() ==> #[trigger] starts@[k] == k * hop,
        forall|k: int| 0 <= k < starts@.len() ==> #[trigger] starts@[k] < total,
{
    let mut starts: Vec<usize> = Vec::new();
    let mut at: usize = 0;
    let mut more: bool = total > 0;
    proof {
        assert(0 * hop == 0);
        if total == 0 {
            assert((hop - 1) / hop as int == 0) by (nonlinear_arith)
                requires
                    hop > 0,
            ;
        }
    }
    while more
        invariant
            hop > 0,
            forall|k: int| 0 <= k < starts@.len() ==> #[trigger] starts@[k] == k * hop,
            forall|k: int| 0 <= k < starts@.len() ==> #[trigger] starts@[k] < total,
            more ==> at == starts@.len() * hop && at < total,
            !more ==> starts@.len() == window_count(total as int, hop as int),
        decreases total - at, more as int,
    {
        starts.push(at);
        if total - at > hop {
            proof {
                assert((starts@.len() - 1) * hop + hop == starts@.len() * hop) by (nonlinear_arith);
            }
            at = at + hop;
        } else {
            more = false;
            proof {
                let k = starts@.len() - 1;
                let h = hop as int;
                assert(total + h - 1 == (k + 1) * h + (total - at - 1)) by (nonlinear_arith)
                    requires
                        at == k * h,
                ;
                vstd::arithmetic::div_mod::lemma_fundamental_div_mod_converse(
                    total + h - 1,
                    h,
                    k + 1,
                    total - at - 1,
                );
            }
        }
    }
    starts
}

/// `length` samples from `start` on, with silence where the recording has ended.
pub open spec fn windowed<T>(samples: Seq<T>, start: int, length: nat, silence: T) -> Seq<T> {
    Seq::new(
        length,
        |i: int|
            if start + i < samples.len() {
                samples[start + i]
            } else {
                silence
            },
    )
}

/// Copies one window out of the recording and fills it up with silence.
pub fn window<T: Copy>(samples: &[T], start: usize, length: usize, silence: T) -> (audio: Vec<T>)
    requires
        start <= samples@.len(),
    ensures
        audio@ == windowed(samples@, start as int, length as nat, silence),
{
    let left: usize = samples.len() - start;
    let mut audio: Vec<T> = Vec::new();
    let mut i: usize = 0;
    while i < length
        invariant
            i <= length,
            left == samples@.len() - start,
            start <= samples.len(),
            audio@ == windowed(samples@, start as int, length as nat, silence).take(i as int),
        decreases length - i,
    {
        if i < left {
            audio.push(samples[start + i]);
        } else {
            audio.push(silence);
        }
        i = i + 1;
        proof {
            assert(audio@ =~= windowed(samples@, start as int, length as nat, silence).take(
                i as int,
            ));
        }
    }
    proof {
        assert(audio@ =~= windowed(samples@, start as int, length as nat, silence));
    }
    audio
}

/// One window as the segmentation model takes it: one batch of one channel.
pub fn window_tensor<T: Copy>(samples: &[T], start: usize, length: usize, silence: T) -> (made:
    Result<Tensor<T>, DiarizationError>)
    requires
        start <= samples@.len(),
    ensures
        match tensor::misfit(1, 1, length, length as nat) {
            Some(fault) => made == Err::<Tensor<T>, DiarizationError>(
                DiarizationError::Shape(fault),
            ),
            None => made matches Ok(t) && t.valid() && t.batch == 1 && t.rows == 1 && t.cols
                == length && t.data@ == windowed(
                samples@,
                start as int,
                length as nat,
                silence,
            ),
        },
{
    let audio: Vec<T> = window(samples, start, length, silence);
    Tensor::new(1, 1, length, audio)
}

/// A window whose length fits in memory always fits the shape that the model
/// takes.
pub proof fn law_window_fits_the_model(length: usize)
    ensures
        tensor::misfit(1, 1, length, length as nat) is None <==> length <= isize::MAX,
{
    let n = tensor::extent(length);
    assert(1 * 1 * n == n && 1 * 1 * length == length) by (nonlinear_arith);
}

/// Every sample of the recording lies in a window, if windows are at least as
/// long as the step between them.
pub proof fn law_windows_cover_the_recording(total: int, hop: int, length: int, sample: int)
    requires
        0 < hop <= length,
        0 <= sample < total,
    ensures
        0 <= sample / hop < window_count(total, hop),
        sample / hop * hop <= sample < sample / hop * hop + length,
{
    let k = sample / hop;
    vstd::arithmetic::div_mod::lemma_fundamental_div_mod(sample, hop);
    vstd::arithmetic::div_mod::lemma_div_pos_is_pos(sample, hop);
    assert(hop * k == k * hop) by (nonlinear_arith);
    assert(total + hop - 1 >= sample + hop);
    vstd::arithmetic::div_mod::lemma_div_is_ordered(sample + hop, total + hop - 1, hop);
    assert((sample + hop) / hop == k + 1) by {
        assert((k + 1) * hop == k * hop + hop) by (nonlinear_arith);
        vstd::arithmetic::div_mod::lemma_fundamental_div_mod_converse(
            sample + hop,
            hop,
            k + 1,
            sample % hop,
        );
    }
}

/// The windows are those that start in the recording: window `k` starts `k` steps into it.
pub proof fn law_windows_start_in_the_recording(total: usize, hop: usize, starts: Vec<usize>)
    requires
        hop > 0,
        call_ensures(window_starts, (total, hop), starts),
    ensures
        forall|k: int| 0 <= k ==> (k < starts@.len() <==> #[trigger] (k * hop) < total),
        forall|k: int| 0 <= k < starts@.len() ==> #[trigger] starts@[k] == k * hop,
{
    let (t, h) = (total as int, hop as int);
    let n = window_count(t, h);
    vstd::arithmetic::div_mod::lemma_fundamental_div_mod(t + h - 1, h);
    assert forall|k: int| 0 <= k implies (k < n <==> #[trigger] (k * hop) < total) by {
        assert(k < n <==> k * h < t) by (nonlinear_arith)
            requires
                t + h - 1 == h * n + (t + h - 1) % h,
                0 <= (t + h - 1) % h < h,
                h > 0,
        ;
    }
}

/// A window holds the recording sample by sample from its start on, and silence behind
/// the end of the recording.
pub proof fn law_windows_hold_the_recording<T: Copy>(
    samples: &[T],
    start: usize,
    length: usize,
    silence: T,
    audio: Vec<T>,
)
    requires
        call_ensures(window::<T>, (samples, start, length, silence), audio),
    ensures
        audio@.len() == length,
        forall|i: int|
            0 <= i < length && start + i < samples@.len() ==> #[trigger] audio@[i]
                == samples@[start + i],
        forall|i: int|
            0 <= i < length && start + i >= samples@.len() ==> #[trigger] audio@[i] == silence,
{
}

} // verus!
