//! How the stream is cut into frames.

use vstd::prelude::*;

use crate::mode::ProcessingMode;
use crate::rounding::{nearest, round_nearest};
#[allow(unused_imports)]
use crate::rounding::{lemma_nearest_small, lemma_nearest_whole, PRECISION};

verus! {

/// The smallest number of samples in a frame.
pub const MIN_FRAME: usize = 64;

/// The smallest number of samples that a frame moves on by.
pub const MIN_HOP: usize = 8;

/// The number of samples in a frame: the duration of the mode at the sample
/// rate, to the nearest sample, halves up, and no less than [`MIN_FRAME`].
pub open spec fn frame_len(mode: ProcessingMode, sample_rate: u32) -> nat {
    let samples = (sample_rate * mode.frame_duration_ms() + 500) / 1000;
    if samples < MIN_FRAME {
        MIN_FRAME as nat
    } else {
        samples as nat
    }
}

/// The number of samples between the starts of two frames: the share of the
/// frame that the next one does not repeat, and no less than 1.  The frame
/// length is taken in single precision, which matters from `2^24` samples on.
pub open spec fn hop_len(mode: ProcessingMode, frame: nat) -> nat {
    let fresh = nearest(frame, 1) * (1000 - mode.overlap_ratio()) / 1000;
    if fresh < 1 {
        1
    } else {
        fresh as nat
    }
}

/// Frame `i` of a sequence of samples that is cut into frames of `n`.
pub open spec fn nth_frame<T>(samples: Seq<T>, n: nat, i: nat) -> Seq<T> {
    samples.subrange((i * n) as int, (i * n + n) as int)
}

/// Whether the hop of a frame is no longer than the frame.  It always is with
/// overlap and below `2^24` samples; beyond, a frame without overlap may round
/// up to a longer hop.
pub open spec fn has_hop(mode: ProcessingMode, frame: nat) -> bool {
    mode.uses_overlap() || frame < PRECISION || nearest(frame, 1) <= frame
}

/// What a share in thousandths comes to in each mode.
proof fn lemma_fresh_share(mode: ProcessingMode, n: nat)
    ensures
        n * (1000 - mode.overlap_ratio()) / 1000 == match mode {
            ProcessingMode::Performance => n,
            ProcessingMode::Balanced => n / 2,
            ProcessingMode::Deep => n / 8,
        },
        0 <= n * (1000 - mode.overlap_ratio()) <= n * 1000,
{
    let share = 1000 - mode.overlap_ratio();
    assert(0 <= n * share <= n * 1000) by (nonlinear_arith)
        requires
            0 <= share <= 1000,
    ;
    match mode {
        ProcessingMode::Performance => {
            assert(n * share == n * 1000) by (nonlinear_arith)
                requires
                    share == 1000,
            ;
        },
        ProcessingMode::Balanced => {
            assert(n * share == n * 500) by (nonlinear_arith)
                requires
                    share == 500,
            ;
        },
        ProcessingMode::Deep => {
            assert(n * share == n * 125) by (nonlinear_arith)
                requires
                    share == 125,
            ;
        },
    }
}

/// The number of samples in a frame.
pub fn frame_size(mode: ProcessingMode, sample_rate: u32) -> (r: usize)
    ensures
        r == frame_len(mode, sample_rate),
        MIN_FRAME <= r <= 0x1000_0000,
{
    let ms: u64 = mode.frame_duration_ms() as u64;
    assert(0 <= sample_rate * ms <= 0xffff_ffff * 46) by (nonlinear_arith)
        requires
            0 <= sample_rate <= 0xffff_ffff,
            0 <= ms <= 46,
    ;
    let samples: u64 = (sample_rate as u64 * ms + 500) / 1000;
    if samples < MIN_FRAME as u64 {
        MIN_FRAME
    } else {
        samples as usize
    }
}

/// The number of samples between the starts of two frames.
pub fn hop_size(mode: ProcessingMode, frame: usize) -> (r: usize)
    requires
        frame <= 0x1000_0000,
    ensures
        r == hop_len(mode, frame as nat),
        r >= 1,
{
    let scaled: u128 = round_nearest(frame as u128, 1);
    proof {
        lemma_nearest_whole(frame as nat);
        lemma_fresh_share(mode, scaled as nat);
    }
    let fresh: u128 = scaled * (1000 - mode.overlap_ratio() as u128) / 1000;
    if fresh < 1 {
        1
    } else {
        fresh as usize
    }
}

/// Every frame moves on by at least [`MIN_HOP`], and the frames leave no gap:
/// with overlap they share samples, however long they are, and up to `2^24`
/// samples they repeat at least half with overlap and abut without.  A hop is
/// no longer than the frame exactly where [`has_hop`] says so.
pub proof fn law_frames_leave_no_gap(mode: ProcessingMode, frame: nat)
    requires
        frame >= MIN_FRAME,
    ensures
        hop_len(mode, frame) >= MIN_HOP,
        mode.uses_overlap() ==> hop_len(mode, frame) < frame,
        frame < PRECISION && mode.uses_overlap() ==> 2 * hop_len(mode, frame) <= frame,
        frame < PRECISION && !mode.uses_overlap() ==> hop_len(mode, frame) == frame,
        hop_len(mode, frame) <= frame <==> has_hop(mode, frame),
{
    lemma_nearest_whole(frame);
    lemma_fresh_share(mode, nearest(frame, 1));
    if frame < PRECISION {
        lemma_nearest_small(frame);
    }
}

/// A frame lasts as long as its mode says, to the nearest sample, but has no fewer than 64
/// samples; a frame of fewer than `2^24` samples is followed by the next after all of it, a
/// half or an eighth, the fraction left off.
pub proof fn law_frames_last_as_long_as_the_mode_says(mode: ProcessingMode, sample_rate: u32)
    ensures
        ({
            let frame = frame_len(mode, sample_rate);
            let lasting = sample_rate * (match mode {
                ProcessingMode::Performance => 16int,
                ProcessingMode::Balanced => 32,
                ProcessingMode::Deep => 46,
            });
            &&& frame >= 64
            &&& 1000 * frame >= lasting - 500
            &&& frame > 64 ==> 1000 * frame <= lasting + 500
            &&& frame < 0x100_0000 ==> hop_len(mode, frame) == match mode {
                ProcessingMode::Performance => frame,
                ProcessingMode::Balanced => frame / 2,
                ProcessingMode::Deep => frame / 8,
            }
        }),
{
    let frame = frame_len(mode, sample_rate);
    let ms = mode.frame_duration_ms();
    assert(sample_rate * ms >= 0) by (nonlinear_arith);
    if frame < PRECISION {
        lemma_nearest_small(frame);
        lemma_fresh_share(mode, frame);
    }
}

} // verus!
