//! What holds of the gain.

use vstd::prelude::*;

use crate::arithmetic::{between, faithful, per_mille, Analysis, Arithmetic};
use crate::features::{features_of, silent};
use crate::framing::{frame_len, has_hop};
use crate::mode::ProcessingMode;
use crate::processor::{
    advanced, approached, decision, drained, heard, initial, matched, peak, peaks, remembered,
    shaped, sound, streamed, Path, HOLD_FRAMES,
};
use crate::stream_laws::{
    fed, law_any_batches_join, law_starts_sound, lemma_advanced_sound, listened, same_setup,
    sound_but_pending,
};
use crate::similarity_laws::{law_peak_is_largest, strictly_ordered};
use crate::target::{best_match, matches_of, TargetAction, Voice};

verus! {

/// The aims and holds that a series of similarities leads to.
pub open spec fn hold_after<T, K: Arithmetic<T>>(
    k: K,
    mode: ProcessingMode,
    targets: Seq<Voice<T>>,
    series: Seq<Seq<T>>,
    hold: nat,
) -> nat
    decreases series.len(),
{
    if series.len() == 0 {
        hold
    } else {
        decision(
            k,
            mode,
            targets,
            series.last(),
            hold_after(k, mode, targets, series.drop_last(), hold),
        ).1
    }
}

/// A suppression comes before everything else, and only a match to be
/// suppressed or the hold of one silences a frame.
pub proof fn law_suppression_comes_first<T, K: Arithmetic<T>>(
    k: K,
    mode: ProcessingMode,
    targets: Seq<Voice<T>>,
    similarities: Seq<T>,
    hold: nat,
)
    ensures
        ({
            let (aim, left) = decision(k, mode, targets, similarities, hold);
            let suppress = matched(k, mode, targets, similarities, TargetAction::Suppress);
            let enhance = matched(k, mode, targets, similarities, TargetAction::Enhance);
            &&& aim == mode.suppress_gain() <==> suppress || hold > 0
            &&& aim == mode.enhance_gain() <==> !suppress && hold == 0 && enhance
            &&& aim == 1000 <==> !suppress && hold == 0 && !enhance
            &&& left <= HOLD_FRAMES || left < hold
        }),
{
}

proof fn lemma_hold_runs_down<T, K: Arithmetic<T>>(
    k: K,
    mode: ProcessingMode,
    targets: Seq<Voice<T>>,
    series: Seq<Seq<T>>,
)
    requires
        series.len() <= HOLD_FRAMES,
    ensures
        hold_after(k, mode, targets, series, HOLD_FRAMES as nat) >= HOLD_FRAMES - series.len(),
    decreases series.len(),
{
    if series.len() > 0 {
        lemma_hold_runs_down(k, mode, targets, series.drop_last());
    }
}

/// After a match to be suppressed, the next three frames that are not silent are
/// suppressed too, whatever they hold.  The count starts anew with every match, also
/// with one that comes during a hold.
pub proof fn law_suppression_is_held<T, K: Arithmetic<T>>(
    k: K,
    mode: ProcessingMode,
    targets: Seq<Voice<T>>,
    matching: Seq<T>,
    hold: nat,
    since: Seq<Seq<T>>,
    next: Seq<T>,
)
    requires
        matched(k, mode, targets, matching, TargetAction::Suppress),
        since.len() < HOLD_FRAMES,
    ensures
        ({
            let start = decision(k, mode, targets, matching, hold).1;
            let now = hold_after(k, mode, targets, since, start);
            &&& start == HOLD_FRAMES
            &&& decision(k, mode, targets, next, now).0 == mode.suppress_gain()
        }),
{
    lemma_hold_runs_down(k, mode, targets, since);
}

/// A hold ends: once a frame after the hold is not matched by a voice to be
/// suppressed, and the three frames before it were not either, it is enhanced where
/// it is matched by a voice to be enhanced, and else left as it is.
pub proof fn law_hold_ends<T, K: Arithmetic<T>>(
    k: K,
    mode: ProcessingMode,
    targets: Seq<Voice<T>>,
    hold: nat,
    since: Seq<Seq<T>>,
    next: Seq<T>,
)
    requires
        hold <= HOLD_FRAMES,
        since.len() >= HOLD_FRAMES,
        forall|i: int|
            0 <= i < since.len() ==> !matched(
                k,
                mode,
                targets,
                #[trigger] since[i],
                TargetAction::Suppress,
            ),
        !matched(k, mode, targets, next, TargetAction::Suppress),
    ensures
        hold_after(k, mode, targets, since, hold) == 0,
        decision(k, mode, targets, next, hold_after(k, mode, targets, since, hold)).0 == (if matched(
            k,
            mode,
            targets,
            next,
            TargetAction::Enhance,
        ) {
            mode.enhance_gain()
        } else {
            1000
        }),
{
    lemma_hold_expires(k, mode, targets, hold, since);
}

proof fn lemma_hold_expires<T, K: Arithmetic<T>>(
    k: K,
    mode: ProcessingMode,
    targets: Seq<Voice<T>>,
    hold: nat,
    since: Seq<Seq<T>>,
)
    requires
        forall|i: int|
            0 <= i < since.len() ==> !matched(
                k,
                mode,
                targets,
                #[trigger] since[i],
                TargetAction::Suppress,
            ),
    ensures
        hold_after(k, mode, targets, since, hold) == (if hold > since.len() {
            (hold - since.len()) as nat
        } else {
            0
        }),
    decreases since.len(),
{
    if since.len() > 0 {
        let shorter = since.drop_last();
        assert forall|i: int| 0 <= i < shorter.len() implies !matched(
            k,
            mode,
            targets,
            #[trigger] shorter[i],
            TargetAction::Suppress,
        ) by {
            assert(shorter[i] == since[i]);
        }
        lemma_hold_expires(k, mode, targets, hold, shorter);
        assert(since.last() == since[since.len() - 1]);
    }
}

/// Without targets the signal is never aimed away from its own level.
pub proof fn law_no_targets_no_change<T, K: Arithmetic<T>>(
    k: K,
    mode: ProcessingMode,
    similarities: Seq<T>,
)
    ensures
        decision(k, mode, Seq::<Voice<T>>::empty(), similarities, 0) == (1000u32, 0nat),
{
}

// ---------------------------------------------------------------------------
// Bounds
// ---------------------------------------------------------------------------

/// The gain that follows `gain` on the way to `aim`.
pub open spec fn stepped<T, K: Arithmetic<T>>(k: K, mode: ProcessingMode, gain: T, aim: T) -> T {
    let keep = per_mille(k, mode.smoothing_coeff());
    k.plus(k.times(keep, gain), k.times(k.minus(k.num(1), keep), aim))
}

/// The arithmetic of a step keeps the order between two bounds: its products and
/// its sum do not fall where their operands rise, and a step from a bound to itself
/// does not leave the bounds.  Rounding keeps all of this but for the last, which
/// has to be looked at for each pair of bounds.
pub open spec fn order_kept<T, K: Arithmetic<T>>(
    k: K,
    mode: ProcessingMode,
    low: T,
    high: T,
) -> bool {
    let keep = per_mille(k, mode.smoothing_coeff());
    let change = k.minus(k.num(1), keep);
    &&& k.reaches(low, low)
    &&& k.reaches(high, low)
    &&& k.reaches(high, high)
    &&& forall|a: T, b: T, c: T| #[trigger]
        k.reaches(a, b) && #[trigger] k.reaches(b, c) ==> k.reaches(a, c)
    &&& forall|a: T, b: T|
        between(k, low, a, high) && between(k, low, b, high) && #[trigger] k.reaches(b, a)
            ==> k.reaches(k.times(keep, b), k.times(keep, a)) && k.reaches(
            k.times(change, b),
            k.times(change, a),
        )
    &&& forall|a: T, b: T, c: T, d: T|
        #![trigger k.plus(a, c), k.plus(b, d)]
        between(k, k.times(keep, low), a, k.times(keep, high)) && between(
            k,
            k.times(keep, low),
            b,
            k.times(keep, high),
        ) && between(k, k.times(change, low), c, k.times(change, high)) && between(
            k,
            k.times(change, low),
            d,
            k.times(change, high),
        ) && k.reaches(b, a) && k.reaches(d, c) ==> k.reaches(k.plus(b, d), k.plus(a, c))
    &&& k.reaches(stepped(k, mode, low, low), low)
    &&& k.reaches(high, stepped(k, mode, high, high))
}

/// A step between two values that lie within bounds stays within them.
proof fn lemma_step_stays_between<T, K: Arithmetic<T>>(
    k: K,
    mode: ProcessingMode,
    low: T,
    high: T,
    gain: T,
    aim: T,
)
    requires
        order_kept(k, mode, low, high),
        between(k, low, gain, high),
        between(k, low, aim, high),
    ensures
        between(k, low, stepped(k, mode, gain, aim), high),
{
    let keep = per_mille(k, mode.smoothing_coeff());
    let change = k.minus(k.num(1), keep);
    assert(between(k, low, low, high) && between(k, low, high, high));
    let kept = k.times(keep, gain);
    let moved = k.times(change, aim);
    assert(between(k, k.times(keep, low), kept, k.times(keep, high)));
    assert(between(k, k.times(change, low), moved, k.times(change, high)));
    assert(k.reaches(k.plus(kept, moved), k.plus(k.times(keep, low), k.times(change, low))));
    assert(k.reaches(k.plus(k.times(keep, high), k.times(change, high)), k.plus(kept, moved)));
}

/// Whether one of the targets asks for this action.
pub open spec fn asked_for<T>(targets: Seq<Voice<T>>, action: TargetAction) -> bool {
    exists|t: int| 0 <= t < targets.len() && (#[trigger] targets[t]).action == action
}

/// All that the gain can aim at lies between two bounds.
pub open spec fn aims_between<T, K: Arithmetic<T>>(
    k: K,
    mode: ProcessingMode,
    targets: Seq<Voice<T>>,
    low: T,
    high: T,
) -> bool {
    &&& between(k, low, k.num(1), high)
    &&& between(k, low, per_mille(k, 1000), high)
    &&& asked_for(targets, TargetAction::Suppress) ==> between(
        k,
        low,
        per_mille(k, mode.suppress_gain()),
        high,
    )
    &&& asked_for(targets, TargetAction::Enhance) ==> between(
        k,
        low,
        per_mille(k, mode.enhance_gain()),
        high,
    )
}

/// The gain lies between two bounds, and a hold comes from a target that
/// suppresses.
pub open spec fn gain_between<T, K: Arithmetic<T>>(k: K, p: Path<T>, low: T, high: T) -> bool {
    &&& between(k, low, p.gain, high)
    &&& between(k, low, p.reported_gain, high)
    &&& p.hold > 0 ==> asked_for(p.targets, TargetAction::Suppress)
}

proof fn lemma_frame_keeps_bounds<T, K: Analysis<T>>(
    k: K,
    p: Path<T>,
    frame: Seq<T>,
    low: T,
    high: T,
)
    requires
        order_kept(k, p.mode, low, high),
        aims_between(k, p.mode, p.targets, low, high),
        gain_between(k, p, low, high),
    ensures
        gain_between(k, heard(k, p, frame), low, high),
{
    if !silent(k, frame) {
        let features = features_of(k, p.mode, p.sample_rate, p.window, frame);
        let history = remembered(p.history, matches_of(k, features, p.targets));
        let similarities = peaks(k, history, p.targets.len());
        let (aim, _) = decision(k, p.mode, p.targets, similarities, p.hold);
        lemma_step_stays_between(k, p.mode, low, high, p.gain, per_mille(k, aim));
        assert(approached(k, p.mode, p.gain, aim) == stepped(
            k,
            p.mode,
            p.gain,
            per_mille(k, aim),
        ));
    }
}

proof fn lemma_drained_keeps_bounds<T, K: Analysis<T>>(k: K, p: Path<T>, low: T, high: T)
    requires
        sound_but_pending(p),
        order_kept(k, p.mode, low, high),
        aims_between(k, p.mode, p.targets, low, high),
        gain_between(k, p, low, high),
    ensures
        gain_between(k, drained(k, p).0, low, high),
    decreases p.pending.len(),
{
    if p.pending.len() >= p.frame_size {
        lemma_advanced_sound(k, p);
        lemma_frame_keeps_bounds(k, p, p.pending.take(p.frame_size as int), low, high);
        lemma_drained_keeps_bounds(k, advanced(k, p).0, low, high);
    }
}

/// The gain never leaves bounds that it starts in and that all its aims lie in.
pub proof fn law_gain_is_bounded<T, K: Analysis<T>>(
    k: K,
    p: Path<T>,
    input: Seq<T>,
    low: T,
    high: T,
)
    requires
        sound(p),
        order_kept(k, p.mode, low, high),
        aims_between(k, p.mode, p.targets, low, high),
        gain_between(k, p, low, high),
    ensures
        gain_between(k, streamed(k, p, input).0, low, high),
{
    lemma_drained_keeps_bounds(k, Path { pending: p.pending + input, ..p }, low, high);
}

/// The gain of a new signal path, after any series of batches, is not below
/// silence and not above the gain of an enhanced voice; it is not below 1 where no
/// target suppresses, and not above 1 where none enhances.  `top` stands for the
/// gain of an enhanced voice and what rounding may add to it.
pub proof fn law_gain_keeps_to_its_aims<T, K: Analysis<T>>(
    k: K,
    mode: ProcessingMode,
    targets: Seq<Voice<T>>,
    sample_rate: u32,
    batches: Seq<Seq<T>>,
    top: T,
)
    requires
        has_hop(mode, frame_len(mode, sample_rate)),
        per_mille(k, 1000) == k.num(1),
        k.reaches(k.num(1), k.num(1)),
        k.reaches(k.num(1), per_mille(k, mode.suppress_gain())),
        k.reaches(per_mille(k, mode.enhance_gain()), k.num(1)),
        k.reaches(top, per_mille(k, mode.enhance_gain())),
        k.reaches(top, k.num(1)),
    ensures
        ({
            let gain = fed(k, initial(k, mode, targets, sample_rate), batches).0.reported_gain;
            let none = per_mille(k, mode.suppress_gain());
            let one = k.num(1);
            &&& order_kept(k, mode, none, top) ==> k.reaches(gain, none) && k.reaches(top, gain)
            &&& order_kept(k, mode, one, top) && !asked_for(targets, TargetAction::Suppress)
                ==> k.reaches(gain, one)
            &&& order_kept(k, mode, none, one) && !asked_for(targets, TargetAction::Enhance)
                ==> k.reaches(one, gain)
        }),
{
    let start = initial(k, mode, targets, sample_rate);
    let all = batches.flatten_alt();
    let none = per_mille(k, mode.suppress_gain());
    let one = k.num(1);
    law_starts_sound(k, mode, targets, sample_rate);
    law_any_batches_join(k, start, batches);
    if order_kept(k, mode, none, top) {
        law_gain_is_bounded(k, start, all, none, top);
    }
    if order_kept(k, mode, one, top) && !asked_for(targets, TargetAction::Suppress) {
        law_gain_is_bounded(k, start, all, one, top);
    }
    if order_kept(k, mode, none, one) && !asked_for(targets, TargetAction::Enhance) {
        law_gain_is_bounded(k, start, all, none, one);
    }
}

// ---------------------------------------------------------------------------
// Movement
// ---------------------------------------------------------------------------

/// So many thousandths as a real number.
pub open spec fn milli(n: u32) -> real {
    n as real / 1000 as real
}

/// Without rounding, the gain moves in every mode: what is left of its distance from the
/// aim is the share that the mode keeps.  So a gain that differs from its aim is followed
/// by one strictly nearer to it and on the same side, and one that has come there stays.
pub proof fn law_gain_moves_towards_its_aim<T, K: Arithmetic<T>>(
    k: K,
    value: spec_fn(T) -> real,
    mode: ProcessingMode,
    gain: T,
    aim: u32,
)
    requires
        faithful(k, value),
    ensures
        ({
            let before = value(gain);
            let after = value(approached(k, mode, gain, aim));
            let goal = milli(aim);
            &&& after - goal == milli(mode.smoothing_coeff()) * (before - goal)
            &&& before > goal ==> before > after && after > goal
            &&& before < goal ==> before < after && after < goal
            &&& before == goal ==> after == goal
        }),
{
    let before = value(gain);
    let goal = milli(aim);
    let c = milli(mode.smoothing_coeff());
    assert(value(per_mille(k, mode.smoothing_coeff())) == c);
    assert(value(per_mille(k, aim)) == goal);
    let after = value(approached(k, mode, gain, aim));
    assert(after == c * before + (1 as real - c) * goal);
    assert(after - goal == c * (before - goal)) by (nonlinear_arith)
        requires
            after == c * before + (1 as real - c) * goal,
    ;
    assert(0 as real <= c && c < 1 as real && c > 0 as real);
    let d = before - goal;
    assert(d > 0 as real ==> d > c * d && c * d > 0 as real) by (nonlinear_arith)
        requires
            c > 0 as real,
            c < 1 as real,
    ;
    assert(d < 0 as real ==> d < c * d && c * d < 0 as real) by (nonlinear_arith)
        requires
            c > 0 as real,
            c < 1 as real,
    ;
    assert(d == 0 as real ==> c * d == 0 as real) by (nonlinear_arith);
}

/// A frame that is not silent and in which target `t`, which asks for this action, is
/// alike enough.
pub open spec fn hears<T, K: Analysis<T>>(
    k: K,
    value: spec_fn(T) -> real,
    p: Path<T>,
    frame: Seq<T>,
    t: int,
    action: TargetAction,
) -> bool {
    let features = features_of(k, p.mode, p.sample_rate, p.window, frame);
    &&& !silent(k, frame)
    &&& 0 <= t < p.targets.len()
    &&& p.targets[t].action == action
    &&& value(best_match(k, features, p.targets[t].reference)) > milli(
        p.mode.similarity_threshold(),
    )
}

/// Faithful arithmetic has a strict order in which all values compare.
pub proof fn lemma_faithful_order<T, K: Arithmetic<T>>(k: K, value: spec_fn(T) -> real)
    requires
        faithful(k, value),
    ensures
        strictly_ordered::<T, K>(k),
        forall|a: T| #[trigger] k.reaches(a, a),
{
}

/// A target that is alike enough in a frame is matched by it.
proof fn lemma_heard_is_matched<T, K: Analysis<T>>(
    k: K,
    value: spec_fn(T) -> real,
    p: Path<T>,
    frame: Seq<T>,
    t: int,
    action: TargetAction,
)
    requires
        faithful(k, value),
        p.history.len() >= 1,
        hears(k, value, p, frame, t, action),
    ensures
        matched(k, p.mode, p.targets, heard(k, p, frame).similarities, action),
{
    let q = heard(k, p, frame);
    lemma_faithful_order(k, value);
    law_peak_is_largest(k, q.history, t);
    assert(q.history[0][t] == best_match(
        k,
        features_of(k, p.mode, p.sample_rate, p.window, frame),
        p.targets[t].reference,
    ));
    assert(q.similarities[t] == peak(k, q.history, t));
    assert(value(per_mille(k, p.mode.similarity_threshold())) == milli(
        p.mode.similarity_threshold(),
    ));
    assert(p.targets[t].action == action);
}

/// Without rounding, a frame in which a voice to be suppressed is heard fades: the gain
/// keeps only the share of the mode, every sample of the frame gets that gain, and a hold
/// of three frames begins.
pub proof fn law_suppressed_voices_fade<T, K: Analysis<T>>(
    k: K,
    value: spec_fn(T) -> real,
    p: Path<T>,
    frame: Seq<T>,
    t: int,
)
    requires
        faithful(k, value),
        p.history.len() >= 1,
        hears(k, value, p, frame, t, TargetAction::Suppress),
    ensures
        ({
            let q = heard(k, p, frame);
            &&& value(q.gain) == milli(p.mode.smoothing_coeff()) * value(p.gain)
            &&& value(p.gain) > 0 as real ==> value(p.gain) > value(q.gain) && value(q.gain)
                > 0 as real
            &&& q.hold == 3
        }),
{
    lemma_heard_is_matched(k, value, p, frame, t, TargetAction::Suppress);
    law_gain_moves_towards_its_aim(k, value, p.mode, p.gain, 0);
}

/// Without rounding, frames during a hold go on to fade, and use it up by one frame
/// each where no voice to be suppressed is heard in them.
pub proof fn law_a_hold_goes_on_to_fade<T, K: Analysis<T>>(
    k: K,
    value: spec_fn(T) -> real,
    p: Path<T>,
    frame: Seq<T>,
)
    requires
        faithful(k, value),
        !silent(k, frame),
        p.hold > 0,
    ensures
        ({
            let q = heard(k, p, frame);
            &&& value(q.gain) == milli(p.mode.smoothing_coeff()) * value(p.gain)
            &&& q.hold == 3 || q.hold == p.hold - 1
        }),
{
    law_gain_moves_towards_its_aim(k, value, p.mode, p.gain, 0);
}

/// No target that asks for this action is above the threshold in the similarities that
/// the last gain was decided on.
pub open spec fn none_above<T>(
    value: spec_fn(T) -> real,
    p: Path<T>,
    action: TargetAction,
) -> bool {
    forall|t: int|
        0 <= t < p.targets.len() && (#[trigger] p.targets[t]).action == action ==> value(
            p.similarities[t],
        ) <= milli(p.mode.similarity_threshold())
}

/// Without rounding, a frame in which a voice to be enhanced is heard, and none to be
/// suppressed, and which no hold reaches, is raised: the gain moves from where it was
/// towards the gain of an enhanced voice.
pub proof fn law_enhanced_voices_rise<T, K: Analysis<T>>(
    k: K,
    value: spec_fn(T) -> real,
    p: Path<T>,
    frame: Seq<T>,
    t: int,
)
    requires
        faithful(k, value),
        p.history.len() >= 1,
        p.hold == 0,
        hears(k, value, p, frame, t, TargetAction::Enhance),
        none_above(value, heard(k, p, frame), TargetAction::Suppress),
    ensures
        ({
            let q = heard(k, p, frame);
            let goal = milli(p.mode.enhance_gain());
            &&& value(q.gain) - goal == milli(p.mode.smoothing_coeff()) * (value(p.gain) - goal)
            &&& value(p.gain) < goal ==> value(p.gain) < value(q.gain) && value(q.gain) < goal
            &&& q.hold == 0
        }),
{
    let q = heard(k, p, frame);
    lemma_heard_is_matched(k, value, p, frame, t, TargetAction::Enhance);
    assert(value(per_mille(k, p.mode.similarity_threshold())) == milli(
        p.mode.similarity_threshold(),
    ));
    assert(!matched(k, p.mode, p.targets, q.similarities, TargetAction::Suppress));
    law_gain_moves_towards_its_aim(k, value, p.mode, p.gain, p.mode.enhance_gain());
}

/// Without rounding, a frame in which no target is heard, and which no hold reaches,
/// brings the gain back towards 1.
pub proof fn law_other_frames_return_to_one<T, K: Analysis<T>>(
    k: K,
    value: spec_fn(T) -> real,
    p: Path<T>,
    frame: Seq<T>,
)
    requires
        faithful(k, value),
        !silent(k, frame),
        p.hold == 0,
        none_above(value, heard(k, p, frame), TargetAction::Suppress),
        none_above(value, heard(k, p, frame), TargetAction::Enhance),
    ensures
        ({
            let q = heard(k, p, frame);
            let goal = 1 as real;
            &&& value(q.gain) - goal == milli(p.mode.smoothing_coeff()) * (value(p.gain) - goal)
            &&& q.hold == 0
        }),
{
    let q = heard(k, p, frame);
    assert(value(per_mille(k, p.mode.similarity_threshold())) == milli(
        p.mode.similarity_threshold(),
    ));
    assert(!matched(k, p.mode, p.targets, q.similarities, TargetAction::Suppress));
    assert(!matched(k, p.mode, p.targets, q.similarities, TargetAction::Enhance));
    law_gain_moves_towards_its_aim(k, value, p.mode, p.gain, 1000);
}

/// Without rounding, the samples of a frame that is not silent are multiplied by the gain
/// that the frame itself has led to, all of them by the same.
pub proof fn law_a_frame_has_one_gain<T, K: Analysis<T>>(
    k: K,
    value: spec_fn(T) -> real,
    p: Path<T>,
    frame: Seq<T>,
    i: int,
)
    requires
        faithful(k, value),
        0 <= i < frame.len(),
    ensures
        shaped(k, p, frame).len() == frame.len(),
        silent(k, frame) ==> value(shaped(k, p, frame)[i]) == value(frame[i]),
        !silent(k, frame) ==> value(shaped(k, p, frame)[i]) == value(frame[i]) * value(
            heard(k, p, frame).reported_gain,
        ),
{
}

/// What a frame leaves alone: the setup of the signal path.
proof fn lemma_heard_keeps_setup<T, K: Analysis<T>>(k: K, p: Path<T>, frame: Seq<T>)
    ensures
        same_setup(heard(k, p, frame), p),
        p.history.len() >= 1 ==> heard(k, p, frame).history.len() == p.history.len(),
{
}

proof fn lemma_listened_keeps_setup<T, K: Analysis<T>>(k: K, p: Path<T>, frames: Seq<Seq<T>>)
    requires
        p.history.len() >= 1,
    ensures
        same_setup(listened(k, p, frames), p),
        listened(k, p, frames).history.len() == p.history.len(),
    decreases frames.len(),
{
    if frames.len() > 0 {
        lemma_listened_keeps_setup(k, p, frames.drop_last());
        lemma_heard_keeps_setup(k, listened(k, p, frames.drop_last()), frames.last());
    }
}

/// A distance that keeps at most four fifths of itself `n` times over falls below any
/// bound: it is no more than four parts in `n + 4` of what it was.
proof fn lemma_distance_dies_out(d0: real, d: real, c: real, n: nat)
    requires
        d0 >= 0 as real,
        0 as real <= d,
        (n + 4) as real * d <= 4 as real * d0,
        0 as real <= c <= 8 as real / 10 as real,
    ensures
        0 as real <= c * d,
        (n + 5) as real * (c * d) <= 4 as real * d0,
{
    let m = n as real;
    assert((n + 4) as real == m + 4 as real && (n + 5) as real == m + 5 as real);
    assert(0 as real <= c * d && (m + 5 as real) * (c * d) <= (m + 4 as real) * d)
        by (nonlinear_arith)
        requires
            m >= 0 as real,
            d >= 0 as real,
            0 as real <= c,
            c * 10 as real <= 8 as real,
    ;
}

/// Without rounding, a voice to be suppressed that is heard on fades out: after `n` such
/// frames the gain is no more than four parts in `n + 4` of what it was, and so in time
/// below any bound above 0.
pub proof fn law_lasting_voices_fade_out<T, K: Analysis<T>>(
    k: K,
    value: spec_fn(T) -> real,
    p: Path<T>,
    frames: Seq<Seq<T>>,
    t: int,
)
    requires
        faithful(k, value),
        p.history.len() >= 1,
        value(p.gain) >= 0 as real,
        forall|i: int|
            0 <= i < frames.len() ==> hears(
                k,
                value,
                p,
                #[trigger] frames[i],
                t,
                TargetAction::Suppress,
            ),
    ensures
        ({
            let q = listened(k, p, frames);
            &&& value(q.gain) >= 0 as real
            &&& (frames.len() + 4) as real * value(q.gain) <= 4 as real * value(p.gain)
        }),
    decreases frames.len(),
{
    if frames.len() > 0 {
        let fewer = frames.drop_last();
        assert forall|i: int| 0 <= i < fewer.len() implies hears(
            k,
            value,
            p,
            #[trigger] fewer[i],
            t,
            TargetAction::Suppress,
        ) by {
            assert(fewer[i] == frames[i]);
        }
        law_lasting_voices_fade_out(k, value, p, fewer, t);
        lemma_listened_keeps_setup(k, p, fewer);
        let before = listened(k, p, fewer);
        assert(hears(k, value, p, frames[frames.len() - 1], t, TargetAction::Suppress));
        law_suppressed_voices_fade(k, value, before, frames.last(), t);
        let c = milli(p.mode.smoothing_coeff());
        assert(0 as real <= c <= 8 as real / 10 as real);
        lemma_distance_dies_out(value(p.gain), value(before.gain), c, fewer.len());
    }
}

/// Without rounding, a voice to be enhanced that is heard on, where no target
/// suppresses, comes up: after `n` such frames what is missing to the gain of an enhanced
/// voice is no more than four parts in `n + 4` of what it was.
pub proof fn law_lasting_voices_come_up<T, K: Analysis<T>>(
    k: K,
    value: spec_fn(T) -> real,
    p: Path<T>,
    frames: Seq<Seq<T>>,
    t: int,
)
    requires
        faithful(k, value),
        p.history.len() >= 1,
        p.hold == 0,
        !asked_for(p.targets, TargetAction::Suppress),
        value(p.gain) <= milli(p.mode.enhance_gain()),
        forall|i: int|
            0 <= i < frames.len() ==> hears(
                k,
                value,
                p,
                #[trigger] frames[i],
                t,
                TargetAction::Enhance,
            ),
    ensures
        ({
            let q = listened(k, p, frames);
            let goal = milli(p.mode.enhance_gain());
            &&& q.hold == 0
            &&& value(q.gain) <= goal
            &&& (frames.len() + 4) as real * (goal - value(q.gain)) <= 4 as real * (goal - value(
                p.gain,
            ))
        }),
    decreases frames.len(),
{
    if frames.len() > 0 {
        let fewer = frames.drop_last();
        assert forall|i: int| 0 <= i < fewer.len() implies hears(
            k,
            value,
            p,
            #[trigger] fewer[i],
            t,
            TargetAction::Enhance,
        ) by {
            assert(fewer[i] == frames[i]);
        }
        law_lasting_voices_come_up(k, value, p, fewer, t);
        lemma_listened_keeps_setup(k, p, fewer);
        let before = listened(k, p, fewer);
        assert(hears(k, value, p, frames[frames.len() - 1], t, TargetAction::Enhance));
        assert(none_above(value, heard(k, before, frames.last()), TargetAction::Suppress)) by {
            lemma_heard_keeps_setup(k, before, frames.last());
        }
        law_enhanced_voices_rise(k, value, before, frames.last(), t);
        let c = milli(p.mode.smoothing_coeff());
        let goal = milli(p.mode.enhance_gain());
        let after = value(listened(k, p, frames).gain);
        assert(0 as real <= c <= 8 as real / 10 as real);
        lemma_distance_dies_out(goal - value(p.gain), goal - value(before.gain), c, fewer.len());
        assert(goal - after == c * (goal - value(before.gain))) by (nonlinear_arith)
            requires
                after - goal == c * (value(before.gain) - goal),
        ;
    }
}

} // verus!
