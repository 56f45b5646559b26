//! What holds of the signal path as a whole.

use vstd::prelude::*;

use crate::arithmetic::{faithful, per_mille, Analysis, Arithmetic};
use crate::features::{hann, silent};
use crate::framing::{frame_len, has_hop, hop_len, law_frames_leave_no_gap, nth_frame};
use crate::mode::ProcessingMode;
use crate::processor::{
    advanced, amplified, approached, drained, heard, initial, joined, shaped, sound, streamed, Path,
};
use crate::target::Voice;

verus! {

// ---------------------------------------------------------------------------
// Batches
// ---------------------------------------------------------------------------

proof fn lemma_drained_then_more<T, K: Analysis<T>>(k: K, p: Path<T>, more: Seq<T>)
    ensures
        ({
            let (q, out) = drained(k, p);
            let (r, rest) = drained(k, Path { pending: q.pending + more, ..q });
            drained(k, Path { pending: p.pending + more, ..p }) == (r, out + rest)
        }),
    decreases p.pending.len(),
{
    let longer = Path { pending: p.pending + more, ..p };
    let (q, out) = drained(k, p);
    let (r, rest) = drained(k, Path { pending: q.pending + more, ..q });
    if p.hop_size < 1 || p.hop_size > p.frame_size || p.pending.len() < p.frame_size {
        assert(out + rest =~= rest);
    } else {
        let (next, fresh) = advanced(k, p);
        let next_longer = Path { pending: next.pending + more, ..next };
        assert(longer.pending.take(p.frame_size as int) =~= p.pending.take(p.frame_size as int));
        assert(longer.pending.skip(p.hop_size as int) =~= next_longer.pending);
        assert(advanced(k, longer) == (next_longer, fresh));
        lemma_drained_then_more(k, next, more);
        let (q1, out1) = drained(k, next);
        assert(fresh + (out1 + rest) =~= (fresh + out1) + rest);
    }
}

/// It does not matter how the stream is cut into batches: two batches one after
/// the other put out the same samples, and leave the same state behind, as one
/// batch that holds both.  So what a batch has put out does not depend on what
/// comes after it.
pub proof fn law_batches_join<T, K: Analysis<T>>(k: K, p: Path<T>, first: Seq<T>, second: Seq<T>)
    ensures
        ({
            let (q, out) = streamed(k, p, first);
            let (r, rest) = streamed(k, q, second);
            streamed(k, p, first + second) == (r, out + rest)
        }),
{
    let start = Path { pending: p.pending + first, ..p };
    lemma_drained_then_more(k, start, second);
    assert(p.pending + (first + second) =~= (p.pending + first) + second);
}

/// The state after a series of batches, one after the other, and all the samples
/// that come out.
pub open spec fn fed<T, K: Analysis<T>>(
    k: K,
    p: Path<T>,
    batches: Seq<Seq<T>>,
) -> (Path<T>, Seq<T>)
    decreases batches.len(),
{
    if batches.len() == 0 {
        (p, Seq::empty())
    } else {
        let (q, out) = fed(k, p, batches.drop_last());
        let (r, more) = streamed(k, q, batches.last());
        (r, out + more)
    }
}

/// Any series of batches does what one batch does that holds them all.
pub proof fn law_any_batches_join<T, K: Analysis<T>>(k: K, p: Path<T>, batches: Seq<Seq<T>>)
    requires
        sound(p),
    ensures
        fed(k, p, batches) == streamed(k, p, batches.flatten_alt()),
    decreases batches.len(),
{
    if batches.len() == 0 {
        assert(p.pending + batches.flatten_alt() =~= p.pending);
    } else {
        law_any_batches_join(k, p, batches.drop_last());
        law_batches_join(k, p, batches.drop_last().flatten_alt(), batches.last());
    }
}

// ---------------------------------------------------------------------------
// Invariants
// ---------------------------------------------------------------------------

/// A new signal path is sound.
pub proof fn law_starts_sound<T, K: Analysis<T>>(
    k: K,
    mode: ProcessingMode,
    targets: Seq<Voice<T>>,
    sample_rate: u32,
)
    requires
        has_hop(mode, frame_len(mode, sample_rate)),
    ensures
        sound(initial(k, mode, targets, sample_rate)),
{
    let frame = frame_len(mode, sample_rate);
    let ms = mode.frame_duration_ms();
    assert(sample_rate * ms <= 0xffff_ffff * 46) by (nonlinear_arith)
        requires
            0 <= sample_rate <= 0xffff_ffff,
            0 <= ms <= 46,
    ;
    law_frames_leave_no_gap(mode, frame);
}

/// Sound but for the pending samples, which may hold complete frames.
pub open spec fn sound_but_pending<T>(p: Path<T>) -> bool {
    sound(Path { pending: Seq::empty(), ..p })
}

pub proof fn lemma_advanced_sound<T, K: Analysis<T>>(k: K, p: Path<T>)
    requires
        sound_but_pending(p),
        p.pending.len() >= p.frame_size,
    ensures
        sound_but_pending(advanced(k, p).0),
        advanced(k, p).0.frames == p.frames + 1,
        advanced(k, p).0.pending.len() == p.pending.len() - p.hop_size,
        advanced(k, p).1.len() == (if p.mode.uses_overlap() {
            p.hop_size
        } else {
            p.frame_size
        }),
        same_setup(advanced(k, p).0, p),
{
    let frame = p.pending.take(p.frame_size as int);
    let next = heard(k, p, frame);
    assert forall|h: int| 0 <= h < next.history.len() implies (#[trigger] next.history[h]).len()
        == p.targets.len() by {
        if next.history != p.history && h > 0 {
            assert(next.history[h] == p.history[h - 1]);
        }
    }
}

/// Two states of one stream: what is set up once is the same.
pub open spec fn same_setup<T>(p: Path<T>, q: Path<T>) -> bool {
    &&& p.mode == q.mode
    &&& p.targets == q.targets
    &&& p.frame_size == q.frame_size
    &&& p.hop_size == q.hop_size
    &&& p.sample_rate == q.sample_rate
    &&& p.window == q.window
}

proof fn lemma_drained_accounts<T, K: Analysis<T>>(k: K, p: Path<T>)
    requires
        sound_but_pending(p),
    ensures
        ({
            let (q, out) = drained(k, p);
            &&& sound(q)
            &&& same_setup(q, p)
            &&& q.frames >= p.frames
            &&& q.pending.len() + (q.frames - p.frames) * p.hop_size == p.pending.len()
            &&& q.frames > p.frames ==> q.pending.len() >= p.frame_size - p.hop_size
            &&& out.len() == (q.frames - p.frames) * (if p.mode.uses_overlap() {
                p.hop_size
            } else {
                p.frame_size
            })
        }),
    decreases p.pending.len(),
{
    let (q, out) = drained(k, p);
    let each = if p.mode.uses_overlap() {
        p.hop_size
    } else {
        p.frame_size
    };
    if p.pending.len() < p.frame_size {
        assert(0 * p.hop_size == 0 && 0 * each == 0) by (nonlinear_arith);
    } else {
        lemma_advanced_sound(k, p);
        let (next, fresh) = advanced(k, p);
        lemma_drained_accounts(k, next);
        let n = q.frames - next.frames;
        let h = p.hop_size as int;
        let e = each as int;
        assert((n + 1) * h == n * h + h && (n + 1) * e == n * e + e) by (nonlinear_arith);
    }
}

/// The number of frames that so many samples fill: one as soon as there are enough
/// for it, and one more for each further hop.
pub open spec fn frames_filled(samples: nat, frame: nat, hop: nat) -> int {
    if samples < frame {
        0
    } else {
        (samples - frame) / (hop as int) + 1
    }
}

/// No sample is lost and none is made up: a batch is either still pending or has
/// gone into frames, as many as the samples fill, each of which uses up a hop and
/// puts out a hop, or, without overlap, the whole frame.  The state stays sound and
/// the setup is kept.
pub proof fn law_samples_are_accounted_for<T, K: Analysis<T>>(k: K, p: Path<T>, input: Seq<T>)
    requires
        sound(p),
    ensures
        ({
            let (q, out) = streamed(k, p, input);
            &&& sound(q)
            &&& same_setup(q, p)
            &&& q.frames - p.frames == frames_filled(
                p.pending.len() + input.len(),
                p.frame_size,
                p.hop_size,
            )
            &&& p.pending.len() + input.len() == q.pending.len() + (q.frames - p.frames)
                * p.hop_size
            &&& out.len() == (q.frames - p.frames) * (if p.mode.uses_overlap() {
                p.hop_size
            } else {
                p.frame_size
            })
        }),
{
    lemma_drained_accounts(k, Path { pending: p.pending + input, ..p });
    let (q, out) = streamed(k, p, input);
    let n = q.frames - p.frames;
    let h = p.hop_size as int;
    let spare = p.pending.len() + input.len() - p.frame_size;
    if n == 0 {
        assert(0 * h == 0) by (nonlinear_arith);
    } else {
        assert((n - 1) * h == n * h - h) by (nonlinear_arith);
        vstd::arithmetic::div_mod::lemma_fundamental_div_mod_converse(
            spare,
            h,
            n - 1,
            spare - (n - 1) * h,
        );
        assert((n - 1) * h >= 0) by (nonlinear_arith)
            requires
                n >= 1,
                h >= 0,
        ;
    }
}

// ---------------------------------------------------------------------------
// Silence
// ---------------------------------------------------------------------------

/// A silent frame is left as it is.  It ends a hold and resets the gain,
/// and it leaves the similarities and their history alone.
pub proof fn law_silence_resets<T, K: Analysis<T>>(k: K, p: Path<T>, frame: Seq<T>)
    requires
        silent(k, frame),
    ensures
        shaped(k, p, frame) == frame,
        heard(k, p, frame).gain == k.num(1),
        heard(k, p, frame).reported_gain == k.num(1),
        heard(k, p, frame).hold == 0,
        heard(k, p, frame).history == p.history,
        heard(k, p, frame).similarities == p.similarities,
{
}

proof fn lemma_silence_passes<T, K: Analysis<T>>(k: K, p: Path<T>)
    requires
        sound_but_pending(p),
        !p.mode.uses_overlap(),
        p.hop_size == p.frame_size,
        forall|i: nat|
            i * p.frame_size + p.frame_size <= p.pending.len() ==> silent(
                k,
                #[trigger] nth_frame(p.pending, p.frame_size, i),
            ),
    ensures
        drained(k, p).1 + drained(k, p).0.pending == p.pending,
    decreases p.pending.len(),
{
    let (q, out) = drained(k, p);
    if p.pending.len() < p.frame_size {
        assert(out + q.pending =~= p.pending);
    } else {
        let n = p.frame_size;
        lemma_advanced_sound(k, p);
        let (next, fresh) = advanced(k, p);
        assert(0 * n == 0) by (nonlinear_arith);
        assert(nth_frame(p.pending, n, 0) =~= p.pending.take(n as int));
        assert forall|i: nat| i * n + n <= next.pending.len() implies silent(
            k,
            #[trigger] nth_frame(next.pending, n, i),
        ) by {
            assert((i + 1) * n == i * n + n && i * n >= 0) by (nonlinear_arith);
            assert(nth_frame(next.pending, n, i) =~= nth_frame(p.pending, n, i + 1));
        }
        lemma_silence_passes(k, next);
        let (_, rest) = drained(k, next);
        assert(out + q.pending =~= fresh + (rest + q.pending));
        assert(p.pending.take(n as int) + p.pending.skip(n as int) =~= p.pending);
    }
}

/// Where frames abut and every complete frame is silent, the stream comes out as
/// it went in: what has come out and what is still pending is what was pending
/// and what was put in.
pub proof fn law_silence_passes<T, K: Analysis<T>>(k: K, p: Path<T>, input: Seq<T>)
    requires
        sound(p),
        !p.mode.uses_overlap(),
        p.hop_size == p.frame_size,
        forall|i: nat|
            i * p.frame_size + p.frame_size <= p.pending.len() + input.len() ==> silent(
                k,
                #[trigger] nth_frame(p.pending + input, p.frame_size, i),
            ),
    ensures
        streamed(k, p, input).1 + streamed(k, p, input).0.pending == p.pending + input,
{
    lemma_silence_passes(k, Path { pending: p.pending + input, ..p });
}

// ---------------------------------------------------------------------------
// No targets
// ---------------------------------------------------------------------------

/// A gain of 1 changes nothing: neither any of some samples that it is applied to,
/// nor itself on the way to 1.
pub open spec fn one_is_neutral<T, K: Arithmetic<T>>(
    k: K,
    mode: ProcessingMode,
    samples: Seq<T>,
) -> bool {
    &&& forall|i: int|
        0 <= i < samples.len() ==> k.times(#[trigger] samples[i], k.num(1)) == samples[i]
    &&& approached(k, mode, k.num(1), 1000) == k.num(1)
}

/// No target, no hold, and a gain of 1.
pub open spec fn untouched<T, K: Arithmetic<T>>(k: K, p: Path<T>) -> bool {
    &&& p.targets.len() == 0
    &&& p.hold == 0
    &&& p.gain == k.num(1)
}

proof fn lemma_untouched_frame<T, K: Analysis<T>>(k: K, p: Path<T>, frame: Seq<T>)
    requires
        untouched(k, p),
        one_is_neutral(k, p.mode, frame),
    ensures
        untouched(k, heard(k, p, frame)),
        shaped(k, p, frame) == frame,
{
    let gain = heard(k, p, frame).gain;
    assert(gain == k.num(1));
    assert(amplified(k, frame, gain) =~= frame);
}

proof fn lemma_only_delayed<T, K: Analysis<T>>(k: K, p: Path<T>)
    requires
        sound_but_pending(p),
        untouched(k, p),
        one_is_neutral(k, p.mode, p.pending),
        !p.mode.uses_overlap(),
        p.hop_size == p.frame_size,
    ensures
        drained(k, p).1 + drained(k, p).0.pending == p.pending,
        untouched(k, drained(k, p).0),
    decreases p.pending.len(),
{
    let (q, out) = drained(k, p);
    if p.pending.len() < p.frame_size {
        assert(out + q.pending =~= p.pending);
    } else {
        let n = p.frame_size as int;
        lemma_advanced_sound(k, p);
        assert forall|i: int| 0 <= i < n implies k.times(
            #[trigger] p.pending.take(n)[i],
            k.num(1),
        ) == p.pending.take(n)[i] by {
            assert(p.pending.take(n)[i] == p.pending[i]);
        }
        lemma_untouched_frame(k, p, p.pending.take(n));
        let (next, fresh) = advanced(k, p);
        assert forall|i: int| 0 <= i < next.pending.len() implies k.times(
            #[trigger] next.pending[i],
            k.num(1),
        ) == next.pending[i] by {
            assert(next.pending[i] == p.pending[i + n]);
        }
        lemma_only_delayed(k, next);
        let (_, rest) = drained(k, next);
        assert(out + q.pending =~= fresh + (rest + q.pending));
        assert(p.pending.take(n) + p.pending.skip(n) =~= p.pending);
    }
}

/// Without targets, and where frames abut, the stream is only delayed: out come
/// the samples that fill whole frames, as they went in, and the gain stays 1.
pub proof fn law_without_targets_only_delays<T, K: Analysis<T>>(k: K, p: Path<T>, input: Seq<T>)
    requires
        sound(p),
        untouched(k, p),
        one_is_neutral(k, p.mode, p.pending + input),
        !p.mode.uses_overlap(),
        p.hop_size == p.frame_size,
    ensures
        ({
            let (q, out) = streamed(k, p, input);
            let all = p.pending + input;
            let whole = all.len() as int / p.frame_size as int * p.frame_size;
            &&& out == all.take(whole)
            &&& q.pending == all.skip(whole)
            &&& q.gain == k.num(1)
            &&& q.reported_gain == k.num(1)
            &&& untouched(k, q)
        }),
{
    let (q, out) = streamed(k, p, input);
    let all = p.pending + input;
    let n = p.frame_size as int;
    lemma_only_delayed(k, Path { pending: all, ..p });
    law_samples_are_accounted_for(k, p, input);
    vstd::arithmetic::div_mod::lemma_fundamental_div_mod_converse(
        all.len() as int,
        n,
        q.frames - p.frames,
        q.pending.len() as int,
    );
    assert(out + q.pending == all);
    assert(out =~= all.take(out.len() as int));
    assert(q.pending =~= all.skip(out.len() as int));
}

/// A new signal path without targets and overlap gives back, over any series of
/// batches, every whole frame that went in, and reports a gain of 1.
pub proof fn law_a_stream_without_targets_is_given_back<T, K: Analysis<T>>(
    k: K,
    mode: ProcessingMode,
    sample_rate: u32,
    batches: Seq<Seq<T>>,
)
    requires
        one_is_neutral(k, mode, batches.flatten_alt()),
        !mode.uses_overlap(),
        hop_len(mode, frame_len(mode, sample_rate)) == frame_len(mode, sample_rate),
    ensures
        ({
            let start = initial(k, mode, Seq::<Voice<T>>::empty(), sample_rate);
            let (q, out) = fed(k, start, batches);
            let all = batches.flatten_alt();
            let frame = frame_len(mode, sample_rate) as int;
            &&& out == all.take(all.len() as int / frame * frame)
            &&& q.reported_gain == k.num(1)
        }),
{
    let start = initial(k, mode, Seq::<Voice<T>>::empty(), sample_rate);
    law_frames_leave_no_gap(mode, frame_len(mode, sample_rate));
    law_starts_sound(k, mode, Seq::<Voice<T>>::empty(), sample_rate);
    law_any_batches_join(k, start, batches);
    assert(start.pending + batches.flatten_alt() =~= batches.flatten_alt());
    law_without_targets_only_delays(k, start, batches.flatten_alt());
}

// ---------------------------------------------------------------------------
// Frames and places
// ---------------------------------------------------------------------------

/// Frame `f` of some samples: a frame begins at every hop.
pub open spec fn cut<T>(samples: Seq<T>, frame: nat, hop: nat, f: int) -> Seq<T> {
    samples.subrange(f * hop, f * hop + frame)
}

/// The first `n` frames of some samples.
pub open spec fn cuts<T>(samples: Seq<T>, frame: nat, hop: nat, n: nat) -> Seq<Seq<T>> {
    Seq::new(n, |f: int| cut(samples, frame, hop, f))
}

/// The state after a series of frames has been heard.
pub open spec fn listened<T, K: Analysis<T>>(k: K, p: Path<T>, frames: Seq<Seq<T>>) -> Path<T>
    decreases frames.len(),
{
    if frames.len() == 0 {
        p
    } else {
        heard(k, listened(k, p, frames.drop_last()), frames.last())
    }
}

/// What becomes of each of a series of frames.
pub open spec fn pieces<T, K: Analysis<T>>(k: K, p: Path<T>, frames: Seq<Seq<T>>) -> Seq<Seq<T>> {
    Seq::new(frames.len(), |f: int| shaped(k, listened(k, p, frames.take(f)), frames[f]))
}

/// A state without the samples that are on their way.
pub open spec fn emptied<T>(p: Path<T>) -> Path<T> {
    Path { pending: Seq::empty(), tail: Seq::empty(), ..p }
}

proof fn lemma_listened_emptied<T, K: Analysis<T>>(k: K, p: Path<T>, frames: Seq<Seq<T>>)
    ensures
        emptied(listened(k, p, frames)) == listened(k, emptied(p), frames),
    decreases frames.len(),
{
    if frames.len() > 0 {
        lemma_listened_emptied(k, p, frames.drop_last());
        let before = listened(k, p, frames.drop_last());
        assert(emptied(heard(k, before, frames.last())) == heard(
            k,
            emptied(before),
            frames.last(),
        ));
    }
}

proof fn lemma_listened_first<T, K: Analysis<T>>(
    k: K,
    p: Path<T>,
    first: Seq<T>,
    rest: Seq<Seq<T>>,
)
    ensures
        listened(k, p, seq![first] + rest) == listened(k, heard(k, p, first), rest),
    decreases rest.len(),
{
    let frames = seq![first] + rest;
    if rest.len() == 0 {
        assert(frames.drop_last() =~= Seq::empty());
        assert(frames.last() == first);
        assert(listened(k, p, frames.drop_last()) == p);
    } else {
        assert(frames.drop_last() =~= seq![first] + rest.drop_last());
        lemma_listened_first(k, p, first, rest.drop_last());
    }
}

/// The first `f` frames that come after the first frame are the frames of the samples
/// from the next hop on.
proof fn lemma_cuts_from_the_next<T>(samples: Seq<T>, frame: nat, hop: nat, n: nat)
    requires
        n >= 1,
        hop <= frame,
        (n - 1) * hop + frame <= samples.len(),
    ensures
        cuts(samples, frame, hop, n) == seq![samples.take(frame as int)] + cuts(
            samples.skip(hop as int),
            frame,
            hop,
            (n - 1) as nat,
        ),
{
    let all = cuts(samples, frame, hop, n);
    let later = samples.skip(hop as int);
    assert((n - 1) * hop >= 0) by (nonlinear_arith)
        requires
            n >= 1,
            hop >= 0,
    ;
    assert forall|f: int| 0 <= f < n implies all[f] == (if f == 0 {
        samples.take(frame as int)
    } else {
        cut(later, frame, hop, f - 1)
    }) by {
        if f == 0 {
            assert(0 * hop == 0) by (nonlinear_arith);
            assert(all[0] =~= samples.take(frame as int));
        } else {
            assert(f * hop == (f - 1) * hop + hop) by (nonlinear_arith);
            assert(0 <= (f - 1) * hop && f * hop <= (n - 1) * hop) by (nonlinear_arith)
                requires
                    1 <= f <= n - 1,
                    hop >= 0,
            ;
            assert(all[f] =~= cut(later, frame, hop, f - 1));
        }
    }
    assert(all =~= seq![samples.take(frame as int)] + cuts(later, frame, hop, (n - 1) as nat));
}

/// What becomes of the later frames does not depend on what is on its way.
proof fn lemma_pieces_from_the_next<T, K: Analysis<T>>(
    k: K,
    p: Path<T>,
    next: Path<T>,
    first: Seq<T>,
    rest: Seq<Seq<T>>,
)
    requires
        emptied(next) == emptied(heard(k, p, first)),
    ensures
        pieces(k, p, seq![first] + rest) == seq![shaped(k, p, first)] + pieces(k, next, rest),
        emptied(listened(k, p, seq![first] + rest)) == emptied(listened(k, next, rest)),
{
    let frames = seq![first] + rest;
    let all = pieces(k, p, frames);
    let later = pieces(k, next, rest);
    let one = heard(k, p, first);
    assert forall|f: int| 0 <= f < frames.len() implies all[f] == (if f == 0 {
        shaped(k, p, first)
    } else {
        later[f - 1]
    }) by {
        if f == 0 {
            assert(frames.take(0) =~= Seq::empty());
        } else {
            assert(frames.take(f) =~= seq![first] + rest.take(f - 1));
            lemma_listened_first(k, p, first, rest.take(f - 1));
            lemma_listened_emptied(k, one, rest.take(f - 1));
            lemma_listened_emptied(k, next, rest.take(f - 1));
            let a = listened(k, one, rest.take(f - 1));
            let b = listened(k, next, rest.take(f - 1));
            assert(emptied(a) == emptied(b));
            lemma_shaped_emptied(k, a, frames[f]);
            lemma_shaped_emptied(k, b, frames[f]);
        }
    }
    assert(all =~= seq![shaped(k, p, first)] + later);
    lemma_listened_first(k, p, first, rest);
    lemma_listened_emptied(k, one, rest);
    lemma_listened_emptied(k, next, rest);
}

proof fn lemma_shaped_emptied<T, K: Analysis<T>>(k: K, p: Path<T>, frame: Seq<T>)
    ensures
        shaped(k, p, frame) == shaped(k, emptied(p), frame),
{
    assert(heard(k, p, frame).gain == heard(k, emptied(p), frame).gain);
}

/// What piles up at place `x` from the first `n` of some pieces, of which one is laid
/// down at every hop on top of a first layer: each piece that covers the place adds its
/// sample there, and the first one to cover a place starts the pile.
pub open spec fn piled<T, K: Arithmetic<T>>(
    k: K,
    layer: Seq<T>,
    pieces: Seq<Seq<T>>,
    hop: nat,
    x: int,
    n: nat,
) -> T
    decreases n,
{
    if n == 0 {
        if 0 <= x < layer.len() {
            layer[x]
        } else {
            k.num(0)
        }
    } else {
        let top = pieces[n - 1];
        let i = x - (n - 1) * hop;
        let below = piled(k, layer, pieces, hop, x, (n - 1) as nat);
        if !(0 <= i < top.len()) {
            below
        } else if i < top.len() - hop {
            k.plus(top[i], below)
        } else {
            top[i]
        }
    }
}

/// Pieces that begin behind a place add nothing there.
proof fn lemma_later_pieces_add_nothing<T, K: Arithmetic<T>>(
    k: K,
    layer: Seq<T>,
    pieces: Seq<Seq<T>>,
    hop: nat,
    x: int,
    m: nat,
    n: nat,
)
    requires
        m <= n,
        x < m * hop,
    ensures
        piled(k, layer, pieces, hop, x, n) == piled(k, layer, pieces, hop, x, m),
    decreases n,
{
    if n > m {
        assert(m * hop <= (n - 1) * hop) by (nonlinear_arith)
            requires
                m <= n - 1,
                hop >= 0,
        ;
        lemma_later_pieces_add_nothing(k, layer, pieces, hop, x, m, (n - 1) as nat);
    }
}

/// A pile on a first piece is a pile on what the first piece leaves behind its hop.
proof fn lemma_pile_moves_on<T, K: Arithmetic<T>>(
    k: K,
    layer: Seq<T>,
    first: Seq<T>,
    rest: Seq<Seq<T>>,
    hop: nat,
    x: int,
    n: nat,
)
    requires
        hop <= first.len(),
        layer.len() == first.len() - hop,
        x >= hop,
        n <= rest.len(),
    ensures
        piled(k, layer, seq![first] + rest, hop, x, n + 1) == piled(
            k,
            joined(k, first, layer).skip(hop as int),
            rest,
            hop,
            x - hop,
            n,
        ),
    decreases n,
{
    let all = seq![first] + rest;
    if n == 0 {
        assert(0 * hop == 0) by (nonlinear_arith);
        assert(all[0] == first);
        assert(piled(k, layer, all, hop, x, 0) == (if x < layer.len() {
            layer[x]
        } else {
            k.num(0)
        }));
    } else {
        lemma_pile_moves_on(k, layer, first, rest, hop, x, (n - 1) as nat);
        assert(n * hop == (n - 1) * hop + hop) by (nonlinear_arith);
        assert(all[n as int] == rest[n - 1]);
    }
}

proof fn lemma_drained_is_piled<T, K: Analysis<T>>(k: K, p: Path<T>, n: nat)
    requires
        sound_but_pending(p),
        n == frames_filled(p.pending.len(), p.frame_size, p.hop_size),
    ensures
        ({
            let (q, out) = drained(k, p);
            let frames = cuts(p.pending, p.frame_size, p.hop_size, n);
            &&& emptied(q) == emptied(listened(k, p, frames))
            &&& p.mode.uses_overlap() ==> out.len() == n * p.hop_size && forall|x: int|
                0 <= x < out.len() ==> #[trigger] out[x] == piled(
                    k,
                    p.tail,
                    pieces(k, p, frames),
                    p.hop_size,
                    x,
                    n,
                )
            &&& !p.mode.uses_overlap() ==> out == pieces(k, p, frames).flatten_alt()
        }),
    decreases p.pending.len(),
{
    let (q, out) = drained(k, p);
    let h = p.hop_size;
    let l = p.frame_size;
    let frames = cuts(p.pending, l, h, n);
    let all = pieces(k, p, frames);
    if p.pending.len() < l {
        assert(frames =~= Seq::empty());
        assert(0 * h == 0) by (nonlinear_arith);
        assert(all =~= Seq::empty());
    } else {
        lemma_advanced_sound(k, p);
        let (next, fresh) = advanced(k, p);
        let m = (n - 1) as nat;
        let spare = p.pending.len() - l;
        vstd::arithmetic::div_mod::lemma_fundamental_div_mod(spare, h as int);
        vstd::arithmetic::div_mod::lemma_mod_bound(spare, h as int);
        vstd::arithmetic::div_mod::lemma_div_pos_is_pos(spare, h as int);
        assert(m * h <= spare) by (nonlinear_arith)
            requires
                m == spare / (h as int),
                spare == h * (spare / (h as int)) + spare % (h as int),
                spare % (h as int) >= 0,
        ;
        assert(m == frames_filled(next.pending.len(), l, h)) by {
            if next.pending.len() < l {
                vstd::arithmetic::div_mod::lemma_small_mod(spare as nat, h);
                vstd::arithmetic::div_mod::lemma_basic_div(spare, h as int);
            } else {
                vstd::arithmetic::div_mod::lemma_div_minus_one(spare, h as int);
            }
        }
        lemma_drained_is_piled(k, next, m);
        let first = p.pending.take(l as int);
        let later = cuts(next.pending, l, h, m);
        lemma_cuts_from_the_next(p.pending, l, h, n);
        lemma_pieces_from_the_next(k, p, next, first, later);
        let (_, rest) = drained(k, next);
        let piece = shaped(k, p, first);
        let others = pieces(k, next, later);
        assert(all == seq![piece] + others);
        assert(n * h == m * h + h) by (nonlinear_arith)
            requires
                n == m + 1,
        ;
        if p.mode.uses_overlap() {
            let whole = joined(k, piece, p.tail);
            assert(piece.len() == l);
            assert forall|x: int| 0 <= x < out.len() implies #[trigger] out[x] == piled(
                k,
                p.tail,
                all,
                h,
                x,
                n,
            ) by {
                if x < h {
                    assert(1 * h == h && 0 * h == 0) by (nonlinear_arith);
                    lemma_later_pieces_add_nothing(k, p.tail, all, h, x, 1, n);
                    assert(piled(k, p.tail, all, h, x, 0) == (if x < p.tail.len() {
                        p.tail[x]
                    } else {
                        k.num(0)
                    }));
                    assert(all[0] == piece);
                    assert(out[x] == whole[x]);
                } else {
                    assert(out[x] == rest[x - h]);
                    lemma_pile_moves_on(k, p.tail, piece, others, h, x, m);
                }
            }
        } else {
            lemma_flatten_first(piece, others);
        }
    }
}

proof fn lemma_flatten_first<T>(first: Seq<T>, rest: Seq<Seq<T>>)
    ensures
        (seq![first] + rest).flatten_alt() == first + rest.flatten_alt(),
    decreases rest.len(),
{
    let all = seq![first] + rest;
    if rest.len() == 0 {
        assert(all.drop_last() =~= Seq::empty());
        assert(all.drop_last().flatten_alt() =~= Seq::empty());
        assert(all.flatten_alt() =~= first + rest.flatten_alt());
    } else {
        assert(all.drop_last() =~= seq![first] + rest.drop_last());
        lemma_flatten_first(first, rest.drop_last());
        assert(all.flatten_alt() =~= first + rest.flatten_alt());
    }
}

/// With overlap, every sample that comes out is the sum of the samples at its place of
/// all frames that cover the place, each with the gain that its own features led to, on
/// top of what earlier frames have left.
pub proof fn law_every_frame_over_a_place_is_added<T, K: Analysis<T>>(
    k: K,
    p: Path<T>,
    input: Seq<T>,
    x: int,
)
    requires
        sound(p),
        p.mode.uses_overlap(),
        0 <= x < streamed(k, p, input).1.len(),
    ensures
        ({
            let samples = p.pending + input;
            let n = frames_filled(samples.len(), p.frame_size, p.hop_size) as nat;
            let frames = cuts(samples, p.frame_size, p.hop_size, n);
            &&& streamed(k, p, input).1.len() == n * p.hop_size
            &&& streamed(k, p, input).1[x] == piled(
                k,
                p.tail,
                pieces(k, p, frames),
                p.hop_size,
                x,
                n,
            )
        }),
{
    let samples = p.pending + input;
    lemma_frames_filled_is_positive(samples.len(), p.frame_size, p.hop_size);
    let n = frames_filled(samples.len(), p.frame_size, p.hop_size) as nat;
    lemma_drained_is_piled(k, Path { pending: samples, ..p }, n);
    let frames = cuts(samples, p.frame_size, p.hop_size, n);
    lemma_pieces_ignore_pending(k, Path { pending: samples, ..p }, p, frames);
}

proof fn lemma_frames_filled_is_positive(samples: nat, frame: nat, hop: nat)
    requires
        hop >= 1,
    ensures
        frames_filled(samples, frame, hop) >= 0,
{
    if samples >= frame {
        vstd::arithmetic::div_mod::lemma_div_pos_is_pos(samples - frame, hop as int);
    }
}

proof fn lemma_pieces_ignore_pending<T, K: Analysis<T>>(
    k: K,
    a: Path<T>,
    b: Path<T>,
    frames: Seq<Seq<T>>,
)
    requires
        emptied(a) == emptied(b),
    ensures
        pieces(k, a, frames) == pieces(k, b, frames),
        emptied(listened(k, a, frames)) == emptied(listened(k, b, frames)),
{
    assert forall|f: int| 0 <= f < frames.len() implies pieces(k, a, frames)[f] == pieces(
        k,
        b,
        frames,
    )[f] by {
        lemma_listened_emptied(k, a, frames.take(f));
        lemma_listened_emptied(k, b, frames.take(f));
        lemma_shaped_emptied(k, listened(k, a, frames.take(f)), frames[f]);
        lemma_shaped_emptied(k, listened(k, b, frames.take(f)), frames[f]);
    }
    assert(pieces(k, a, frames) =~= pieces(k, b, frames));
    lemma_listened_emptied(k, a, frames);
    lemma_listened_emptied(k, b, frames);
}

/// Without overlap, the frames come out one after the other, each with the gain that its
/// own features led to.
pub proof fn law_frames_follow_one_another<T, K: Analysis<T>>(k: K, p: Path<T>, input: Seq<T>)
    requires
        sound(p),
        !p.mode.uses_overlap(),
    ensures
        ({
            let samples = p.pending + input;
            let n = frames_filled(samples.len(), p.frame_size, p.hop_size) as nat;
            let frames = cuts(samples, p.frame_size, p.hop_size, n);
            streamed(k, p, input).1 == pieces(k, p, frames).flatten_alt()
        }),
{
    let samples = p.pending + input;
    lemma_frames_filled_is_positive(samples.len(), p.frame_size, p.hop_size);
    let n = frames_filled(samples.len(), p.frame_size, p.hop_size) as nat;
    lemma_drained_is_piled(k, Path { pending: samples, ..p }, n);
    let frames = cuts(samples, p.frame_size, p.hop_size, n);
    lemma_pieces_ignore_pending(k, Path { pending: samples, ..p }, p, frames);
}

/// A stream hears the frames of its samples in turn, one at every hop, and nothing else:
/// gain, hold, history and counts are those of hearing these frames.
pub proof fn law_frames_are_heard_in_turn<T, K: Analysis<T>>(k: K, p: Path<T>, input: Seq<T>)
    requires
        sound(p),
    ensures
        ({
            let samples = p.pending + input;
            let n = frames_filled(samples.len(), p.frame_size, p.hop_size) as nat;
            let frames = cuts(samples, p.frame_size, p.hop_size, n);
            emptied(streamed(k, p, input).0) == emptied(listened(k, p, frames))
        }),
{
    let samples = p.pending + input;
    lemma_frames_filled_is_positive(samples.len(), p.frame_size, p.hop_size);
    let n = frames_filled(samples.len(), p.frame_size, p.hop_size) as nat;
    lemma_drained_is_piled(k, Path { pending: samples, ..p }, n);
    let frames = cuts(samples, p.frame_size, p.hop_size, n);
    lemma_pieces_ignore_pending(k, Path { pending: samples, ..p }, p, frames);
}

// ---------------------------------------------------------------------------
// Sums without rounding
// ---------------------------------------------------------------------------

/// Whether frame `f` covers place `x`.
pub open spec fn covering(frame: nat, hop: nat, x: int, f: int) -> bool {
    f * hop <= x < f * hop + frame
}

/// The sum of the samples at place `x` of those of the first `n` pieces that cover it.
pub open spec fn sum_at<T>(
    value: spec_fn(T) -> real,
    pieces: Seq<Seq<T>>,
    frame: nat,
    hop: nat,
    x: int,
    n: nat,
) -> real
    decreases n,
{
    if n == 0 {
        0 as real
    } else {
        let before = sum_at(value, pieces, frame, hop, x, (n - 1) as nat);
        if covering(frame, hop, x, n - 1) {
            before + value(pieces[n - 1][x - (n - 1) * hop])
        } else {
            before
        }
    }
}

/// Where none of the first `n` frames reaches a place, nothing adds up there.
proof fn lemma_nothing_reaches<T>(
    value: spec_fn(T) -> real,
    pieces: Seq<Seq<T>>,
    frame: nat,
    hop: nat,
    x: int,
    n: nat,
)
    requires
        n > 0 ==> x >= (n - 1) * hop + frame,
    ensures
        sum_at(value, pieces, frame, hop, x, n) == 0 as real,
    decreases n,
{
    if n > 0 {
        assert((n - 1) * hop == (n - 2) * hop + hop) by (nonlinear_arith);
        lemma_nothing_reaches(value, pieces, frame, hop, x, (n - 1) as nat);
    }
}

proof fn lemma_pile_is_a_sum<T, K: Arithmetic<T>>(
    k: K,
    value: spec_fn(T) -> real,
    layer: Seq<T>,
    pieces: Seq<Seq<T>>,
    frame: nat,
    hop: nat,
    x: int,
    n: nat,
)
    requires
        faithful(k, value),
        hop <= frame,
        layer.len() == frame - hop,
        forall|i: int| 0 <= i < layer.len() ==> value(#[trigger] layer[i]) == 0 as real,
        n <= pieces.len(),
        forall|f: int| 0 <= f < pieces.len() ==> (#[trigger] pieces[f]).len() == frame,
        x >= 0,
    ensures
        value(piled(k, layer, pieces, hop, x, n)) == sum_at(value, pieces, frame, hop, x, n),
    decreases n,
{
    assert(value(k.num(0)) == 0 as real);
    if n > 0 {
        let m = (n - 1) as nat;
        lemma_pile_is_a_sum(k, value, layer, pieces, frame, hop, x, m);
        assert(pieces[n - 1].len() == frame);
        let i = x - m * hop;
        if frame - hop <= i < frame {
            assert(m * hop == (m - 1) * hop + hop) by (nonlinear_arith);
            lemma_nothing_reaches(value, pieces, frame, hop, x, m);
        }
    }
}

/// The samples of a state's frames keep their number.
proof fn lemma_pieces_len<T, K: Analysis<T>>(k: K, p: Path<T>, frames: Seq<Seq<T>>, frame: nat)
    requires
        forall|f: int| 0 <= f < frames.len() ==> (#[trigger] frames[f]).len() == frame,
    ensures
        pieces(k, p, frames).len() == frames.len(),
        forall|f: int|
            0 <= f < frames.len() ==> (#[trigger] pieces(k, p, frames)[f]).len() == frame,
{
    assert forall|f: int| 0 <= f < frames.len() implies (#[trigger] pieces(k, p, frames)[f]).len()
        == frame by {
        assert(frames[f].len() == frame);
    }
}

proof fn lemma_cuts_len<T>(samples: Seq<T>, frame: nat, hop: nat, n: nat, f: int)
    requires
        hop >= 1,
        n == frames_filled(samples.len(), frame, hop),
        0 <= f < n,
    ensures
        0 <= f * hop,
        f * hop + frame <= samples.len(),
        cuts(samples, frame, hop, n)[f].len() == frame,
{
    let spare = samples.len() - frame;
    vstd::arithmetic::div_mod::lemma_fundamental_div_mod(spare, hop as int);
    vstd::arithmetic::div_mod::lemma_mod_bound(spare, hop as int);
    assert(0 <= f * hop <= spare) by (nonlinear_arith)
        requires
            0 <= f <= spare / (hop as int),
            hop >= 1,
            spare == hop * (spare / (hop as int)) + spare % (hop as int),
            spare % (hop as int) >= 0,
    ;
}

/// Without rounding, every sample that a new signal path with overlap puts out is the
/// plain sum of the samples at its place of all frames that cover the place, however the
/// stream is cut into batches.
pub proof fn law_output_is_the_sum_of_its_frames<T, K: Analysis<T>>(
    k: K,
    value: spec_fn(T) -> real,
    mode: ProcessingMode,
    targets: Seq<Voice<T>>,
    sample_rate: u32,
    batches: Seq<Seq<T>>,
    x: int,
)
    requires
        faithful(k, value),
        mode.uses_overlap(),
        0 <= x < fed(k, initial(k, mode, targets, sample_rate), batches).1.len(),
    ensures
        ({
            let start = initial(k, mode, targets, sample_rate);
            let samples = batches.flatten_alt();
            let frame = frame_len(mode, sample_rate);
            let hop = hop_len(mode, frame);
            let n = frames_filled(samples.len(), frame, hop) as nat;
            let frames = cuts(samples, frame, hop, n);
            let out = fed(k, start, batches).1;
            &&& out.len() == n * hop
            &&& value(out[x]) == sum_at(value, pieces(k, start, frames), frame, hop, x, n)
        }),
{
    let start = initial(k, mode, targets, sample_rate);
    let samples = batches.flatten_alt();
    let frame = frame_len(mode, sample_rate);
    let hop = hop_len(mode, frame);
    law_starts_sound(k, mode, targets, sample_rate);
    law_any_batches_join(k, start, batches);
    assert(start.pending + samples =~= samples);
    law_every_frame_over_a_place_is_added(k, start, samples, x);
    lemma_frames_filled_is_positive(samples.len(), frame, hop);
    let n = frames_filled(samples.len(), frame, hop) as nat;
    let frames = cuts(samples, frame, hop, n);
    assert forall|f: int| 0 <= f < frames.len() implies (#[trigger] frames[f]).len() == frame by {
        lemma_cuts_len(samples, frame, hop, n, f);
    }
    lemma_pieces_len(k, start, frames, frame);
    lemma_pile_is_a_sum(k, value, start.tail, pieces(k, start, frames), frame, hop, x, n);
}

/// The number of the first `n` frames that cover place `x`.
pub open spec fn cover(frame: nat, hop: nat, x: int, n: nat) -> nat
    decreases n,
{
    if n == 0 {
        0
    } else {
        cover(frame, hop, x, (n - 1) as nat) + if covering(frame, hop, x, n - 1) {
            1nat
        } else {
            0
        }
    }
}

proof fn lemma_covering_is_a_range(
    frame: nat,
    hop: nat,
    x: int,
    f: int,
    first: int,
    last: int,
)
    requires
        1 <= hop <= frame,
        x >= 0,
        f >= 0,
        last == x / (hop as int),
        first == (if x < frame {
            0
        } else {
            (x - frame) / (hop as int) + 1
        }),
    ensures
        covering(frame, hop, x, f) == (first <= f <= last),
{
    let h = hop as int;
    vstd::arithmetic::div_mod::lemma_fundamental_div_mod(x, h);
    vstd::arithmetic::div_mod::lemma_mod_bound(x, h);
    assert((f * h <= x) == (f <= last)) by (nonlinear_arith)
        requires
            x == h * last + x % h,
            0 <= x % h < h,
            h >= 1,
    ;
    if x >= frame {
        let over = x - frame;
        vstd::arithmetic::div_mod::lemma_fundamental_div_mod(over, h);
        vstd::arithmetic::div_mod::lemma_mod_bound(over, h);
        assert((over < f * h) == (over / h < f)) by (nonlinear_arith)
            requires
                over == h * (over / h) + over % h,
                0 <= over % h < h,
                h >= 1,
        ;
    } else {
        assert(f * h >= 0) by (nonlinear_arith)
            requires
                f >= 0,
                h >= 1,
        ;
    }
}

proof fn lemma_cover_counts(frame: nat, hop: nat, x: int, n: nat, first: int, last: int)
    requires
        0 <= first <= last,
        forall|f: int|
            f >= 0 ==> #[trigger] covering(frame, hop, x, f) == (first <= f <= last),
    ensures
        cover(frame, hop, x, n) == (if n <= first {
            0
        } else if n <= last {
            n - first
        } else {
            last + 1 - first
        }),
    decreases n,
{
    if n > 0 {
        lemma_cover_counts(frame, hop, x, (n - 1) as nat, first, last);
        assert(covering(frame, hop, x, n - 1) == (first <= n - 1 <= last));
    }
}

/// A place is covered by every frame that begins up to it and less than a frame before
/// it: from the first whole frame on, where hops fill a frame, by as many as there are
/// hops in a frame.
pub proof fn law_places_are_covered(frame: nat, hop: nat, x: int, n: nat)
    requires
        1 <= hop <= frame,
        0 <= x < n * hop,
    ensures
        cover(frame, hop, x, n) == x / (hop as int) + 1 - (if x < frame {
            0
        } else {
            (x - frame) / (hop as int) + 1
        }),
        x >= frame - hop && frame % hop == 0 ==> cover(frame, hop, x, n) == frame / hop,
        cover(frame, hop, x, n) >= 1,
{
    let h = hop as int;
    let last = x / h;
    let first = if x < frame {
        0
    } else {
        (x - frame) / h + 1
    };
    vstd::arithmetic::div_mod::lemma_fundamental_div_mod(x, h);
    vstd::arithmetic::div_mod::lemma_mod_bound(x, h);
    vstd::arithmetic::div_mod::lemma_div_pos_is_pos(x, h);
    if x >= frame {
        vstd::arithmetic::div_mod::lemma_fundamental_div_mod(x - frame, h);
        vstd::arithmetic::div_mod::lemma_mod_bound(x - frame, h);
        vstd::arithmetic::div_mod::lemma_div_pos_is_pos(x - frame, h);
    }
    assert(last < n) by (nonlinear_arith)
        requires
            x < n * h,
            x == h * last + x % h,
            x % h >= 0,
            h >= 1,
    ;
    assert forall|f: int| f >= 0 implies #[trigger] covering(frame, hop, x, f) == (first <= f
        <= last) by {
        lemma_covering_is_a_range(frame, hop, x, f, first, last);
    }
    assert(covering(frame, hop, x, last)) by {
        assert(last * h <= x < last * h + h) by (nonlinear_arith)
            requires
                x == h * last + x % h,
                0 <= x % h < h,
        ;
    }
    assert(first <= last);
    lemma_cover_counts(frame, hop, x, n, first, last);
    if x >= frame - hop && frame % hop == 0 {
        let q = frame as int / h;
        vstd::arithmetic::div_mod::lemma_fundamental_div_mod(frame as int, h);
        assert(frame == q * h) by (nonlinear_arith)
            requires
                frame == h * q + 0,
        ;
        if x >= frame {
            assert(x - frame == (last - q) * h + x % h) by (nonlinear_arith)
                requires
                    x == h * last + x % h,
                    frame == q * h,
            ;
            vstd::arithmetic::div_mod::lemma_fundamental_div_mod_converse(
                x - frame,
                h,
                last - q,
                x % h,
            );
        } else {
            assert((q - 1) * h == q * h - h) by (nonlinear_arith);
            vstd::arithmetic::div_mod::lemma_fundamental_div_mod_converse(
                x,
                h,
                q - 1,
                x - (q - 1) * h,
            );
        }
    }
}

/// No target, no hold, and a gain whose value is 1.
pub open spec fn neutral<T>(value: spec_fn(T) -> real, p: Path<T>) -> bool {
    &&& p.targets.len() == 0
    &&& p.hold == 0
    &&& value(p.gain) == 1 as real
}

proof fn lemma_neutral_frame<T, K: Analysis<T>>(
    k: K,
    value: spec_fn(T) -> real,
    p: Path<T>,
    frame: Seq<T>,
)
    requires
        faithful(k, value),
        neutral(value, p),
    ensures
        neutral(value, heard(k, p, frame)),
        shaped(k, p, frame).len() == frame.len(),
        forall|i: int|
            0 <= i < frame.len() ==> value(#[trigger] shaped(k, p, frame)[i]) == value(frame[i]),
{
    let q = heard(k, p, frame);
    let keep = per_mille(k, p.mode.smoothing_coeff());
    assert(value(keep) == p.mode.smoothing_coeff() as real / 1000 as real);
    assert(value(per_mille(k, 1000)) == 1 as real);
    let c = value(keep);
    assert(c * 1 as real + (1 as real - c) * 1 as real == 1 as real) by (nonlinear_arith);
    assert(value(q.gain) == 1 as real);
    assert forall|i: int| 0 <= i < frame.len() implies value(#[trigger] shaped(k, p, frame)[i])
        == value(frame[i]) by {
        if !silent(k, frame) {
            assert(shaped(k, p, frame)[i] == k.times(frame[i], q.gain));
            assert(value(frame[i]) * 1 as real == value(frame[i])) by (nonlinear_arith);
        }
    }
}

proof fn lemma_neutral_frames<T, K: Analysis<T>>(
    k: K,
    value: spec_fn(T) -> real,
    p: Path<T>,
    frames: Seq<Seq<T>>,
)
    requires
        faithful(k, value),
        neutral(value, p),
    ensures
        neutral(value, listened(k, p, frames)),
    decreases frames.len(),
{
    if frames.len() > 0 {
        lemma_neutral_frames(k, value, p, frames.drop_last());
        lemma_neutral_frame(k, value, listened(k, p, frames.drop_last()), frames.last());
    }
}

/// Where each piece holds the samples of its place, they add up to the sample as often as
/// the place is covered.
proof fn lemma_sum_of_copies<T>(
    value: spec_fn(T) -> real,
    pieces: Seq<Seq<T>>,
    frame: nat,
    hop: nat,
    x: int,
    n: nat,
    sample: real,
)
    requires
        forall|f: int|
            0 <= f < n && covering(frame, hop, x, f) ==> value(
                #[trigger] pieces[f][x - f * hop],
            ) == sample,
    ensures
        sum_at(value, pieces, frame, hop, x, n) == cover(frame, hop, x, n) as real * sample,
    decreases n,
{
    if n > 0 {
        let m = (n - 1) as nat;
        lemma_sum_of_copies(value, pieces, frame, hop, x, m, sample);
        let c = cover(frame, hop, x, m) as real;
        assert((c + 1 as real) * sample == c * sample + sample) by (nonlinear_arith);
        if covering(frame, hop, x, n - 1) {
            assert(value(pieces[n - 1][x - (n - 1) * hop]) == sample);
            assert(cover(frame, hop, x, n) as real == c + 1 as real);
        }
    } else {
        assert(0 as real * sample == 0 as real) by (nonlinear_arith);
    }
}

/// Without targets, with overlap and without rounding, every sample comes out at its
/// place, as many times itself as there are frames that cover the place.  So where hops
/// fill a frame the stream comes out, from the first whole frame on, as itself times the
/// number of hops in a frame.
pub proof fn law_overlap_adds_a_sample_for_each_cover<T, K: Analysis<T>>(
    k: K,
    value: spec_fn(T) -> real,
    mode: ProcessingMode,
    sample_rate: u32,
    batches: Seq<Seq<T>>,
    x: int,
)
    requires
        faithful(k, value),
        mode.uses_overlap(),
        0 <= x < fed(k, initial(k, mode, Seq::<Voice<T>>::empty(), sample_rate), batches).1.len(),
    ensures
        ({
            let out = fed(
                k,
                initial(k, mode, Seq::<Voice<T>>::empty(), sample_rate),
                batches,
            ).1;
            let samples = batches.flatten_alt();
            let frame = frame_len(mode, sample_rate);
            let hop = hop_len(mode, frame);
            let n = frames_filled(samples.len(), frame, hop) as nat;
            &&& out.len() == n * hop
            &&& out.len() <= samples.len()
            &&& value(out[x]) == cover(frame, hop, x, n) as real * value(samples[x])
            &&& x >= frame - hop && frame % hop == 0 ==> value(out[x]) == (frame / hop) as real
                * value(samples[x])
        }),
{
    let start = initial(k, mode, Seq::<Voice<T>>::empty(), sample_rate);
    let samples = batches.flatten_alt();
    let frame = frame_len(mode, sample_rate);
    let hop = hop_len(mode, frame);
    law_starts_sound(k, mode, Seq::<Voice<T>>::empty(), sample_rate);
    law_output_is_the_sum_of_its_frames(
        k,
        value,
        mode,
        Seq::<Voice<T>>::empty(),
        sample_rate,
        batches,
        x,
    );
    lemma_frames_filled_is_positive(samples.len(), frame, hop);
    let n = frames_filled(samples.len(), frame, hop) as nat;
    let frames = cuts(samples, frame, hop, n);
    let all = pieces(k, start, frames);
    law_places_are_covered(frame, hop, x, n);
    assert(value(start.gain) == 1 as real);
    assert(n >= 1) by (nonlinear_arith)
        requires
            0 <= x < n * hop,
    ;
    lemma_cuts_len(samples, frame, hop, n, n - 1);
    assert(n * hop == (n - 1) * hop + hop) by (nonlinear_arith);
    assert forall|f: int| 0 <= f < n && covering(frame, hop, x, f) implies value(
        #[trigger] all[f][x - f * hop],
    ) == value(samples[x]) by {
        lemma_cuts_len(samples, frame, hop, n, f);
        lemma_neutral_frames(k, value, start, frames.take(f));
        lemma_neutral_frame(k, value, listened(k, start, frames.take(f)), frames[f]);
        assert(all[f] == shaped(k, listened(k, start, frames.take(f)), frames[f]));
        assert(frames[f][x - f * hop] == samples[x]);
    }
    lemma_sum_of_copies(value, all, frame, hop, x, n, value(samples[x]));
}

// ---------------------------------------------------------------------------
// The start
// ---------------------------------------------------------------------------

/// A new signal path has heard nothing and changes nothing: its gain is 1, it holds nothing,
/// nothing is on its way but silence, and every similarity that it remembers is 0.
pub proof fn law_a_new_path_has_heard_nothing<T, K: Analysis<T>>(
    k: K,
    mode: ProcessingMode,
    targets: Seq<Voice<T>>,
    sample_rate: u32,
    h: int,
    t: int,
)
    requires
        0 <= t < targets.len(),
        0 <= h < mode.temporal_smooth_frames(),
    ensures
        ({
            let p = initial(k, mode, targets, sample_rate);
            &&& p.mode == mode
            &&& p.targets == targets
            &&& p.sample_rate == sample_rate
            &&& p.frame_size == frame_len(mode, sample_rate)
            &&& p.hop_size == hop_len(mode, p.frame_size)
            &&& p.gain == k.num(1)
            &&& p.reported_gain == k.num(1)
            &&& p.hold == 0
            &&& p.frames == 0
            &&& p.analysed == 0
            &&& p.pending.len() == 0
            &&& forall|i: int| 0 <= i < p.tail.len() ==> #[trigger] p.tail[i] == k.num(0)
            &&& p.history.len() == mode.temporal_smooth_frames()
            &&& p.history[h][t] == k.num(0)
            &&& p.similarities[t] == k.num(0)
            &&& p.similarities.len() == targets.len()
            &&& mode is Deep ==> p.window == hann(k, p.frame_size)
            &&& !(mode is Deep) ==> forall|i: int|
                0 <= i < p.window.len() ==> #[trigger] p.window[i] == k.num(1)
            &&& p.window.len() == p.frame_size
        }),
{
}

} // verus!
