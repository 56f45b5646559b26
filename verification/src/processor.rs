//! The signal path: frames are cut from the stream, compared with the targets,
//! given a gain and joined again.

use vstd::prelude::*;
use vstd::slice::{slice_subrange, slice_to_vec};

use crate::arithmetic::{maximum, thousandths, Analysis, Arithmetic};
#[allow(unused_imports)]
use crate::arithmetic::{exact, exact_analysis, larger, per_mille};
use crate::features::{extract_features, filled, is_silent, mode_window};
#[allow(unused_imports)]
use crate::features::{features_of, silent, window_of};
use crate::framing::{frame_size, hop_size};
#[allow(unused_imports)]
use crate::framing::{
    frame_len, has_hop, hop_len, law_frames_leave_no_gap, MIN_FRAME, MIN_HOP,
};
use crate::mode::ProcessingMode;
use crate::target::{match_targets, TargetAction, TargetVoice};
#[allow(unused_imports)]
use crate::target::{matches_of, rows, voices, Voice};

verus! {

/// The number of frames that a suppression is held on after its last match.
pub const HOLD_FRAMES: usize = 3;

/// The state of the signal path.
pub struct Path<T> {
    pub mode: ProcessingMode,
    pub targets: Seq<Voice<T>>,
    pub frame_size: nat,
    pub hop_size: nat,
    pub sample_rate: u32,
    pub window: Seq<T>,
    /// The samples that wait for a frame to be complete.
    pub pending: Seq<T>,
    /// The part of the last frames that the next frame is added to.
    pub tail: Seq<T>,
    /// The gain of the last frame.
    pub gain: T,
    /// The number of frames that a suppression is still held on.
    pub hold: nat,
    /// The similarities of the most recent frames, the newest first.
    pub history: Seq<Seq<T>>,
    /// The number of frames processed.
    pub frames: nat,
    /// The number of frames processed that were not silent.
    pub analysed: nat,
    /// The similarities on which the last gain was decided.
    pub similarities: Seq<T>,
    /// The gain last reported.
    pub reported_gain: T,
}

/// What every state of the signal path has in common.
pub open spec fn sound<T>(p: Path<T>) -> bool {
    &&& MIN_FRAME <= p.frame_size <= 0x1000_0000
    &&& MIN_HOP <= p.hop_size <= p.frame_size
    &&& p.window.len() == p.frame_size
    &&& p.pending.len() < p.frame_size
    &&& p.tail.len() == tail_len(p.mode, p.frame_size, p.hop_size)
    &&& p.hold <= HOLD_FRAMES
    &&& p.history.len() == p.mode.temporal_smooth_frames()
    &&& forall|h: int|
        0 <= h < p.history.len() ==> (#[trigger] p.history[h]).len() == p.targets.len()
    &&& p.similarities.len() == p.targets.len()
    &&& p.reported_gain == p.gain
    &&& p.analysed <= p.frames
}

/// The number of samples that are carried from one frame to the next.
pub open spec fn tail_len(mode: ProcessingMode, frame: nat, hop: nat) -> int {
    if mode.uses_overlap() {
        frame - hop
    } else {
        0
    }
}

/// The state before the first sample.
pub open spec fn initial<T, K: Analysis<T>>(
    k: K,
    mode: ProcessingMode,
    targets: Seq<Voice<T>>,
    sample_rate: u32,
) -> Path<T> {
    let frame = frame_len(mode, sample_rate);
    let hop = hop_len(mode, frame);
    let zeros = Seq::new(targets.len(), |t: int| k.num(0));
    Path {
        mode,
        targets,
        frame_size: frame,
        hop_size: hop,
        sample_rate,
        window: window_of(k, mode, frame),
        pending: Seq::empty(),
        tail: Seq::new(tail_len(mode, frame, hop) as nat, |i: int| k.num(0)),
        gain: k.num(1),
        hold: 0,
        history: Seq::new(mode.temporal_smooth_frames() as nat, |h: int| zeros),
        frames: 0,
        analysed: 0,
        similarities: zeros,
        reported_gain: k.num(1),
    }
}

// ---------------------------------------------------------------------------
// Similarities over time
// ---------------------------------------------------------------------------

/// The history with a newest entry in place of its oldest.
pub open spec fn remembered<T>(history: Seq<Seq<T>>, newest: Seq<T>) -> Seq<Seq<T>> {
    seq![newest] + history.drop_last()
}

/// The largest similarity to target `t` in a history, and 0 where none is above
/// it: a voice that is not heard at all is no less alike than that.
pub open spec fn peak<T, K: Arithmetic<T>>(k: K, history: Seq<Seq<T>>, t: int) -> T
    decreases history.len(),
{
    if history.len() == 0 {
        k.num(0)
    } else {
        larger(k, peak(k, history.drop_last(), t), history.last()[t])
    }
}

/// The largest similarity to each of `n` targets in a history.
pub open spec fn peaks<T, K: Arithmetic<T>>(k: K, history: Seq<Seq<T>>, n: nat) -> Seq<T> {
    Seq::new(n, |t: int| peak(k, history, t))
}

// ---------------------------------------------------------------------------
// Gain
// ---------------------------------------------------------------------------

/// Whether a target with this action is matched: its similarity is above the
/// threshold of the mode.
pub open spec fn matched<T, K: Arithmetic<T>>(
    k: K,
    mode: ProcessingMode,
    targets: Seq<Voice<T>>,
    similarities: Seq<T>,
    action: TargetAction,
) -> bool {
    exists|t: int|
        0 <= t < targets.len() && (#[trigger] targets[t]).action == action && k.below(
            per_mille(k, mode.similarity_threshold()),
            similarities[t],
        )
}

/// The gain to aim at, in thousandths, and the hold that is left: a match to be
/// suppressed comes first, then the hold of an earlier one, then a match to be
/// enhanced, and else the signal is left as it is.
pub open spec fn decision<T, K: Arithmetic<T>>(
    k: K,
    mode: ProcessingMode,
    targets: Seq<Voice<T>>,
    similarities: Seq<T>,
    hold: nat,
) -> (u32, nat) {
    if matched(k, mode, targets, similarities, TargetAction::Suppress) {
        (mode.suppress_gain(), HOLD_FRAMES as nat)
    } else if hold > 0 {
        (mode.suppress_gain(), (hold - 1) as nat)
    } else if matched(k, mode, targets, similarities, TargetAction::Enhance) {
        (mode.enhance_gain(), 0)
    } else {
        (1000, 0)
    }
}

/// The gain that follows `gain` on the way to `aim` thousandths.
pub open spec fn approached<T, K: Arithmetic<T>>(k: K, mode: ProcessingMode, gain: T, aim: u32) -> T {
    let keep = per_mille(k, mode.smoothing_coeff());
    k.plus(k.times(keep, gain), k.times(k.minus(k.num(1), keep), per_mille(k, aim)))
}

/// A frame with a gain applied.
pub open spec fn amplified<T, K: Arithmetic<T>>(k: K, frame: Seq<T>, gain: T) -> Seq<T> {
    Seq::new(frame.len(), |i: int| k.times(frame[i], gain))
}

// ---------------------------------------------------------------------------
// Frames
// ---------------------------------------------------------------------------

/// The state after a frame has been heard.
pub open spec fn heard<T, K: Analysis<T>>(k: K, p: Path<T>, frame: Seq<T>) -> Path<T> {
    if silent(k, frame) {
        Path {
            gain: k.num(1),
            hold: 0,
            reported_gain: k.num(1),
            frames: p.frames + 1,
            ..p
        }
    } else {
        let features = features_of(k, p.mode, p.sample_rate, p.window, frame);
        let history = remembered(p.history, matches_of(k, features, p.targets));
        let similarities = peaks(k, history, p.targets.len());
        let (aim, hold) = decision(k, p.mode, p.targets, similarities, p.hold);
        let gain = approached(k, p.mode, p.gain, aim);
        Path {
            gain,
            hold,
            history,
            similarities,
            reported_gain: gain,
            frames: p.frames + 1,
            analysed: p.analysed + 1,
            ..p
        }
    }
}

/// What becomes of a frame: a silent one is left as it is, any other gets the
/// gain that its own features led to.
pub open spec fn shaped<T, K: Analysis<T>>(k: K, p: Path<T>, frame: Seq<T>) -> Seq<T> {
    if silent(k, frame) {
        frame
    } else {
        amplified(k, frame, heard(k, p, frame).gain)
    }
}

/// A frame with the tail of the frames before it added to its front.
pub open spec fn joined<T, K: Arithmetic<T>>(k: K, frame: Seq<T>, tail: Seq<T>) -> Seq<T> {
    Seq::new(
        frame.len(),
        |i: int|
            if i < tail.len() {
                k.plus(frame[i], tail[i])
            } else {
                frame[i]
            },
    )
}

/// The state after the first frame of the pending samples, and the samples that
/// it puts out: with overlap what no later frame adds to, else the frame.
pub open spec fn advanced<T, K: Analysis<T>>(k: K, p: Path<T>) -> (Path<T>, Seq<T>) {
    let frame = p.pending.take(p.frame_size as int);
    let next = Path { pending: p.pending.skip(p.hop_size as int), ..heard(k, p, frame) };
    let out = shaped(k, p, frame);
    if p.mode.uses_overlap() {
        let whole = joined(k, out, p.tail);
        (Path { tail: whole.skip(p.hop_size as int), ..next }, whole.take(p.hop_size as int))
    } else {
        (next, out)
    }
}

/// The state after all complete frames of the pending samples, and the samples
/// that they put out.
pub open spec fn drained<T, K: Analysis<T>>(k: K, p: Path<T>) -> (Path<T>, Seq<T>)
    decreases p.pending.len(),
{
    if p.hop_size < 1 || p.hop_size > p.frame_size || p.pending.len() < p.frame_size {
        (p, Seq::empty())
    } else {
        let (next, out) = advanced(k, p);
        let (last, rest) = drained(k, next);
        (last, out + rest)
    }
}

/// The state after a batch of samples, and the samples that come out.
pub open spec fn streamed<T, K: Analysis<T>>(k: K, p: Path<T>, input: Seq<T>) -> (Path<T>, Seq<T>) {
    drained(k, Path { pending: p.pending + input, ..p })
}

// ---------------------------------------------------------------------------
// The processor
// ---------------------------------------------------------------------------

/// The signal path of a live stream.
pub struct AudioProcessor<T, K> {
    mode: ProcessingMode,
    targets: Vec<TargetVoice<T>>,
    frame_size: usize,
    hop_size: usize,
    sample_rate: u32,
    input_buffer: Vec<T>,
    overlap_buffer: Vec<T>,
    current_gain: T,
    suppress_hold_counter: usize,
    similarity_history: Vec<Vec<T>>,
    kernel: K,
    window: Vec<T>,
    frames_processed: u64,
    frames_analysed: u64,
    last_similarities: Vec<T>,
    last_gain: T,
}

/// Appends copies of the items of a slice.
fn append_copies<T: Copy>(v: &mut Vec<T>, items: &[T])
    ensures
        final(v)@ == old(v)@ + items@,
{
    let mut i: usize = 0;
    while i < items.len()
        invariant
            i <= items@.len(),
            v@ =~= old(v)@ + items@.take(i as int),
        decreases items@.len() - i,
    {
        v.push(items[i]);
        i += 1;
    }
    assert(items@.take(i as int) =~= items@);
}

impl<T, K> AudioProcessor<T, K> {
    /// The state of the signal path.
    pub closed spec fn view(&self) -> Path<T> {
        Path {
            mode: self.mode,
            targets: voices(self.targets@),
            frame_size: self.frame_size as nat,
            hop_size: self.hop_size as nat,
            sample_rate: self.sample_rate,
            window: self.window@,
            pending: self.input_buffer@,
            tail: self.overlap_buffer@,
            gain: self.current_gain,
            hold: self.suppress_hold_counter as nat,
            history: rows(self.similarity_history@),
            frames: self.frames_processed as nat,
            analysed: self.frames_analysed as nat,
            similarities: self.last_similarities@,
            reported_gain: self.last_gain,
        }
    }

    /// The arithmetic of the signal path.
    pub closed spec fn arithmetic(&self) -> K {
        self.kernel
    }

    /// The arithmetic of the signal path.
    pub fn kernel(&self) -> (r: &K)
        ensures
            *r == self.arithmetic(),
    {
        &self.kernel
    }

    /// The number of frames processed so far.
    pub fn frames_processed(&self) -> (r: u64)
        ensures
            r == self@.frames,
    {
        self.frames_processed
    }

    /// The number of frames processed so far that were not silent.
    pub fn frames_analysed(&self) -> (r: u64)
        ensures
            r == self@.analysed,
    {
        self.frames_analysed
    }

    /// The similarities of the last frame that was not silent, one for each
    /// target.
    pub fn last_similarities(&self) -> (r: &Vec<T>)
        ensures
            r@ == self@.similarities,
    {
        &self.last_similarities
    }

    /// The number of samples in a frame.
    pub fn frame_size(&self) -> (r: usize)
        ensures
            r == self@.frame_size,
    {
        self.frame_size
    }

    /// The number of samples between the starts of two frames.
    pub fn hop_size(&self) -> (r: usize)
        ensures
            r == self@.hop_size,
    {
        self.hop_size
    }
}

impl<T: Copy, K: Analysis<T>> AudioProcessor<T, K> {
    /// The gain of the last frame.
    pub fn last_gain(&self) -> (r: T)
        ensures
            r == self@.reported_gain,
    {
        self.last_gain
    }

    /// A processor for a stream at a sample rate.
    ///
    /// The frames must have a hop: at rates in the gigahertz, a frame of the mode
    /// without overlap may round up to a hop that is longer than itself.
    pub fn new(
        mode: ProcessingMode,
        targets: Vec<TargetVoice<T>>,
        actual_sample_rate: u32,
        kernel: K,
    ) -> (r: Self)
        requires
            exact_analysis::<T, K>(kernel),
            has_hop(mode, frame_len(mode, actual_sample_rate)),
        ensures
            r@ == initial(kernel, mode, voices(targets@), actual_sample_rate),
            sound(r@),
            r.arithmetic() == kernel,
    {
        let frame: usize = frame_size(mode, actual_sample_rate);
        proof {
            law_frames_leave_no_gap(mode, frame as nat);
        }
        let hop: usize = hop_size(mode, frame);
        let window = mode_window(&kernel, mode, frame);
        let zero = kernel.number(0);
        let one = kernel.number(1);

        let overlap_len: usize = if mode.uses_overlap() {
            frame - hop
        } else {
            0
        };
        let overlap_buffer = filled(zero, overlap_len);

        let num_targets: usize = targets.len();
        let temporal_frames: usize = mode.temporal_smooth_frames();
        let ghost zeros = Seq::new(num_targets as nat, |t: int| zero);
        let mut similarity_history: Vec<Vec<T>> = Vec::new();
        let mut h: usize = 0;
        while h < temporal_frames
            invariant
                h <= temporal_frames,
                zeros == Seq::new(num_targets as nat, |t: int| zero),
                similarity_history@.len() == h,
                forall|i: int| 0 <= i < h ==> (#[trigger] similarity_history@[i])@ == zeros,
            decreases temporal_frames - h,
        {
            similarity_history.push(filled(zero, num_targets));
            h += 1;
        }

        let r = AudioProcessor {
            mode,
            targets,
            frame_size: frame,
            hop_size: hop,
            sample_rate: actual_sample_rate,
            input_buffer: Vec::new(),
            overlap_buffer,
            current_gain: one,
            suppress_hold_counter: 0,
            similarity_history,
            kernel,
            window,
            frames_processed: 0,
            frames_analysed: 0,
            last_similarities: filled(zero, num_targets),
            last_gain: one,
        };
        proof {
            let start = initial(kernel, mode, voices(targets@), actual_sample_rate);
            assert(r@.history =~= start.history);
            assert(r@.tail =~= start.tail);
            assert(r@.similarities =~= start.similarities);
            assert(r@.pending =~= start.pending);
        }
        r
    }

    /// Enters the similarities of a frame into the history and returns, for each
    /// target, the largest one in it.
    pub fn compute_smoothed_similarities(&mut self, frame_features: &Vec<T>) -> (r: Vec<T>)
        requires
            exact_analysis::<T, K>(old(self).arithmetic()),
            sound(old(self)@),
        ensures
            final(self)@ == (Path {
                history: remembered(
                    old(self)@.history,
                    matches_of(old(self).arithmetic(), frame_features@, old(self)@.targets),
                ),
                ..old(self)@
            }),
            sound(final(self)@),
            final(self).arithmetic() == old(self).arithmetic(),
            r@ == peaks(old(self).arithmetic(), final(self)@.history, old(self)@.targets.len()),
    {
        let n_targets: usize = self.targets.len();
        let current = match_targets(&self.kernel, frame_features.as_slice(), &self.targets);
        let ghost newest = current@;
        self.similarity_history.pop();
        self.similarity_history.insert(0, current);
        let ghost history = rows(self.similarity_history@);
        proof {
            assert(history =~= remembered(old(self)@.history, newest));
            assert forall|h: int| 0 <= h < history.len() implies (#[trigger] history[h]).len()
                == n_targets by {
                if h > 0 {
                    assert(history[h] == old(self)@.history[h - 1]);
                }
            }
        }

        let mut smoothed: Vec<T> = Vec::new();
        let mut t: usize = 0;
        while t < n_targets
            invariant
                exact_analysis::<T, K>(self.kernel),
                t <= n_targets,
                history == rows(self.similarity_history@),
                forall|h: int|
                    0 <= h < history.len() ==> (#[trigger] history[h]).len() == n_targets,
                smoothed@ =~= peaks(self.kernel, history, n_targets as nat).take(t as int),
            decreases n_targets - t,
        {
            let mut max_sim = self.kernel.number(0);
            let mut h: usize = 0;
            while h < self.similarity_history.len()
                invariant
                    exact_analysis::<T, K>(self.kernel),
                    t < n_targets,
                    h <= self.similarity_history@.len(),
                    history == rows(self.similarity_history@),
                    forall|h: int|
                        0 <= h < history.len() ==> (#[trigger] history[h]).len() == n_targets,
                    max_sim == peak(self.kernel, history.take(h as int), t as int),
                decreases self.similarity_history@.len() - h,
            {
                assert(history[h as int].len() == n_targets);
                assert(history.take(h + 1).drop_last() =~= history.take(h as int));
                let similarity = self.similarity_history[h][t];
                max_sim = maximum(&self.kernel, max_sim, similarity);
                h += 1;
            }
            assert(history.take(h as int) =~= history);
            smoothed.push(max_sim);
            t += 1;
        }
        smoothed
    }

    /// Decides on the gain to aim at, in thousandths.
    pub fn decide_gain(&mut self, similarities: &Vec<T>) -> (r: u32)
        requires
            exact_analysis::<T, K>(old(self).arithmetic()),
            sound(old(self)@),
            similarities@.len() >= old(self)@.targets.len(),
        ensures
            final(self)@ == (Path {
                hold: decision(
                    old(self).arithmetic(),
                    old(self)@.mode,
                    old(self)@.targets,
                    similarities@,
                    old(self)@.hold,
                ).1,
                ..old(self)@
            }),
            sound(final(self)@),
            final(self).arithmetic() == old(self).arithmetic(),
            r == decision(
                old(self).arithmetic(),
                old(self)@.mode,
                old(self)@.targets,
                similarities@,
                old(self)@.hold,
            ).0,
    {
        if any_match(&self.kernel, self.mode, &self.targets, similarities, TargetAction::Suppress) {
            self.suppress_hold_counter = HOLD_FRAMES;
            return self.mode.suppress_gain();
        }
        if self.suppress_hold_counter > 0 {
            self.suppress_hold_counter = self.suppress_hold_counter - 1;
            return self.mode.suppress_gain();
        }
        if any_match(&self.kernel, self.mode, &self.targets, similarities, TargetAction::Enhance) {
            return self.mode.enhance_gain();
        }
        1000
    }

    /// Processes one frame in place.
    fn process_frame(&mut self, frame: &mut Vec<T>)
        requires
            exact_analysis::<T, K>(old(self).arithmetic()),
            sound(old(self)@),
            old(frame)@.len() == old(self)@.frame_size,
            old(self)@.frames < u64::MAX,
        ensures
            final(self)@ == heard(old(self).arithmetic(), old(self)@, old(frame)@),
            sound(final(self)@),
            final(self).arithmetic() == old(self).arithmetic(),
            final(frame)@ == shaped(old(self).arithmetic(), old(self)@, old(frame)@),
    {
        if is_silent(&self.kernel, frame.as_slice()) {
            self.current_gain = self.kernel.number(1);
            self.suppress_hold_counter = 0;
            self.last_gain = self.kernel.number(1);
            self.frames_processed = self.frames_processed + 1;
            return;
        }
        let features = extract_features(
            &self.kernel,
            self.mode,
            self.sample_rate,
            &self.window,
            frame.as_slice(),
        );
        let similarities = self.compute_smoothed_similarities(&features);
        let aim: u32 = self.decide_gain(&similarities);

        let alpha = thousandths(&self.kernel, self.mode.smoothing_coeff());
        let target_gain = thousandths(&self.kernel, aim);
        let one = self.kernel.number(1);
        let kept = self.kernel.product(alpha, self.current_gain);
        let moved = self.kernel.product(self.kernel.difference(one, alpha), target_gain);
        let gain = self.kernel.sum(kept, moved);
        self.current_gain = gain;
        self.frames_analysed = self.frames_analysed + 1;
        self.last_similarities = similarities;
        self.last_gain = gain;

        let ghost before = frame@;
        let mut i: usize = 0;
        while i < frame.len()
            invariant
                exact_analysis::<T, K>(self.kernel),
                i <= frame@.len(),
                frame@.len() == before.len(),
                frame@ =~= amplified(self.kernel, before, gain).take(i as int) + before.skip(
                    i as int,
                ),
            decreases frame@.len() - i,
        {
            let sample = frame[i];
            frame[i] = self.kernel.product(sample, gain);
            i += 1;
        }
        self.frames_processed = self.frames_processed + 1;
    }

    /// Takes a batch of samples in and returns what is ready to go out.
    pub fn process_samples(&mut self, input: &[T]) -> (r: Vec<T>)
        requires
            exact_analysis::<T, K>(old(self).arithmetic()),
            sound(old(self)@),
            old(self)@.frames + (old(self)@.frame_size + input.len()) / MIN_HOP as int
                <= u64::MAX,
        ensures
            (final(self)@, r@) == streamed(old(self).arithmetic(), old(self)@, input@),
            sound(final(self)@),
            final(self)@.frames <= old(self)@.frames + (old(self)@.frame_size + input.len())
                / MIN_HOP as int,
            final(self).arithmetic() == old(self).arithmetic(),
    {
        append_copies(&mut self.input_buffer, input);
        let mut output: Vec<T> = Vec::new();
        let ghost start = self@;
        let ghost k = self.kernel;
        while self.input_buffer.len() >= self.frame_size
            invariant
                exact_analysis::<T, K>(k),
                self.kernel == k,
                sound(Path { pending: Seq::<T>::empty(), ..self@ }),
                MIN_HOP * self@.frames + self@.pending.len() <= MIN_HOP * old(self)@.frames
                    + old(self)@.frame_size + input@.len(),
                old(self)@.frames + (old(self)@.frame_size + input.len()) / MIN_HOP as int
                    <= u64::MAX,
                drained(k, start) == (
                    drained(k, self@).0,
                    output@ + drained(k, self@).1,
                ),
            decreases self.input_buffer@.len(),
        {
            let ghost before = self@;
            let mut frame = slice_to_vec(
                slice_subrange(self.input_buffer.as_slice(), 0, self.frame_size),
            );
            let ghost cut = frame@;
            let rest = self.input_buffer.split_off(self.hop_size);
            self.input_buffer = Vec::new();
            self.process_frame(&mut frame);
            self.input_buffer = rest;
            proof {
                assert(before.pending.take(before.frame_size as int) =~= cut);
                assert(self@.pending =~= before.pending.skip(before.hop_size as int));
            }

            let ghost out = output@;
            if self.mode.uses_overlap() {
                add_tail(&self.kernel, &mut frame, &self.overlap_buffer);
                self.overlap_buffer = frame.split_off(self.hop_size);
            }
            append_copies(&mut output, frame.as_slice());
            proof {
                let (next, fresh) = advanced(k, before);
                assert(self@.tail =~= next.tail);
                assert(self@ == next);
                assert(output@ =~= out + fresh);
                assert(out + (fresh + drained(k, next).1) =~= output@ + drained(k, next).1);
            }
        }
        output
    }
}

/// Whether a target with this action is matched.
pub fn any_match<T: Copy, K: Arithmetic<T>>(
    k: &K,
    mode: ProcessingMode,
    targets: &Vec<TargetVoice<T>>,
    similarities: &Vec<T>,
    action: TargetAction,
) -> (r: bool)
    requires
        exact::<T, K>(*k),
        similarities@.len() >= targets@.len(),
    ensures
        r == matched(*k, mode, voices(targets@), similarities@, action),
{
    let threshold = thousandths(k, mode.similarity_threshold());
    let ghost all = voices(targets@);
    let mut t: usize = 0;
    while t < targets.len()
        invariant
            exact::<T, K>(*k),
            t <= targets@.len(),
            similarities@.len() >= targets@.len(),
            all == voices(targets@),
            threshold == per_mille::<T, K>(*k, mode.similarity_threshold()),
            forall|i: int|
                0 <= i < t ==> !((#[trigger] all[i]).action == action && k.below(
                    threshold,
                    similarities@[i],
                )),
        decreases targets@.len() - t,
    {
        assert(all[t as int].action == targets@[t as int].action);
        if targets[t].action == action && k.less(threshold, similarities[t]) {
            return true;
        }
        t += 1;
    }
    false
}

/// Adds the tail of earlier frames to the front of a frame.
fn add_tail<T: Copy, K: Arithmetic<T>>(k: &K, frame: &mut Vec<T>, tail: &Vec<T>)
    requires
        exact::<T, K>(*k),
        tail@.len() <= old(frame)@.len(),
    ensures
        final(frame)@ == joined(*k, old(frame)@, tail@),
{
    let mut i: usize = 0;
    while i < tail.len()
        invariant
            exact::<T, K>(*k),
            i <= tail@.len() <= frame@.len(),
            frame@.len() == old(frame)@.len(),
            frame@ =~= joined(*k, old(frame)@, tail@.take(i as int)),
        decreases tail@.len() - i,
    {
        let sample = frame[i];
        frame[i] = k.sum(sample, tail[i]);
        i += 1;
    }
    assert(tail@.take(i as int) =~= tail@);
}

} // verus!
