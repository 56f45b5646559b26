//! What holds of the similarities.

use vstd::prelude::*;

use crate::arithmetic::{
    between, energy, faithful_analysis, inner_product, larger, lemma_inner_product_value,
    lemma_over_times, lemma_squares_sum_up, product_sum, products, root_squares, Analysis,
    Arithmetic, Reals,
};
use crate::features::{features_of, negligible, silent, window_of};
use crate::framing::{frame_len, nth_frame};
use crate::mode::ProcessingMode;
use crate::processor::{heard, initial, peak, peaks, remembered, Path};
use crate::reference::{lemma_spoken_frame, spoken_features, thinned, MAX_REFERENCES};
use crate::stream_laws::{listened, same_setup};
use crate::target::{best_match, cosine_of, highest, matches_of, Voice};

verus! {

/// The order of the samples is a strict one, and what is ordered compares with
/// itself.
pub open spec fn strictly_ordered<T, K: Arithmetic<T>>(k: K) -> bool {
    &&& forall|a: T| !#[trigger] k.below(a, a)
    &&& forall|a: T, b: T, c: T| #[trigger]
        k.below(a, b) && #[trigger] k.below(b, c) ==> k.below(a, c)
    &&& forall|a: T, b: T| #[trigger] k.below(a, b) ==> k.reaches(a, a) && k.reaches(b, b)
}

/// What holds of the largest similarity while references are gone through: there is
/// one exactly where one compares, it is one of them and compares itself, and none
/// is larger.
proof fn lemma_highest<T, K: Analysis<T>>(k: K, features: Seq<T>, reference: Seq<Seq<T>>)
    requires
        strictly_ordered::<T, K>(k),
    ensures
        match highest(k, features, reference) {
            Some(best) => {
                &&& k.reaches(best, best)
                &&& exists|i: int|
                    0 <= i < reference.len() && best == cosine_of(
                        k,
                        features,
                        #[trigger] reference[i],
                    )
                &&& forall|i: int|
                    0 <= i < reference.len() ==> !k.below(
                        best,
                        cosine_of(k, features, #[trigger] reference[i]),
                    )
            },
            None => forall|i: int|
                0 <= i < reference.len() ==> !compares(
                    k,
                    cosine_of(k, features, #[trigger] reference[i]),
                ),
        },
    decreases reference.len(),
{
    if reference.len() > 0 {
        let shorter = reference.drop_last();
        lemma_highest(k, features, shorter);
        let last = cosine_of(k, features, reference.last());
        assert(reference[reference.len() - 1] == reference.last());
        assert(forall|i: int| 0 <= i < shorter.len() ==> shorter[i] == #[trigger] reference[i]);
        match highest(k, features, shorter) {
            Some(before) => {
                let i = choose|i: int|
                    0 <= i < shorter.len() && before == cosine_of(
                        k,
                        features,
                        #[trigger] shorter[i],
                    );
                assert(reference[i] == shorter[i]);
                let now = larger(k, before, last);
                assert forall|i: int| 0 <= i < reference.len() implies !k.below(
                    now,
                    cosine_of(k, features, #[trigger] reference[i]),
                ) by {
                    if i < shorter.len() {
                        assert(!k.below(before, cosine_of(k, features, shorter[i])));
                    }
                }
            },
            None => {
                assert forall|i: int| 0 <= i < reference.len() - 1 implies !compares(
                    k,
                    cosine_of(k, features, #[trigger] reference[i]),
                ) by {
                    assert(!compares(k, cosine_of(k, features, shorter[i])));
                }
            },
        }
    }
}

/// Whether a value compares, that is, compares with itself.
pub open spec fn compares<T, K: Arithmetic<T>>(k: K, a: T) -> bool {
    k.reaches(a, a)
}

/// The best match is the similarity to one of the references where one of them
/// compares, and else 0.  No reference is more similar.
pub proof fn law_best_match_is_largest<T, K: Analysis<T>>(
    k: K,
    features: Seq<T>,
    reference: Seq<Seq<T>>,
)
    requires
        strictly_ordered::<T, K>(k),
    ensures
        ({
            let best = best_match(k, features, reference);
            let some = exists|i: int|
                0 <= i < reference.len() && compares(
                    k,
                    cosine_of(k, features, #[trigger] reference[i]),
                );
            &&& !some ==> best == k.num(0)
            &&& some ==> compares(k, best) && exists|i: int|
                0 <= i < reference.len() && best == cosine_of(k, features, #[trigger] reference[i])
            &&& forall|i: int|
                0 <= i < reference.len() ==> !k.below(
                    best,
                    cosine_of(k, features, #[trigger] reference[i]),
                )
        }),
{
    lemma_highest(k, features, reference);
}

/// The peak of a history is 0 or one of its entries; it is not below 0, and no
/// entry is larger.  It compares where 0 does.
pub proof fn law_peak_is_largest<T, K: Arithmetic<T>>(k: K, history: Seq<Seq<T>>, t: int)
    requires
        strictly_ordered::<T, K>(k),
    ensures
        peak(k, history, t) == k.num(0) || exists|h: int|
            0 <= h < history.len() && peak(k, history, t) == (#[trigger] history[h])[t],
        !k.below(peak(k, history, t), k.num(0)),
        k.reaches(k.num(0), k.num(0)) ==> k.reaches(peak(k, history, t), peak(k, history, t)),
        forall|h: int|
            0 <= h < history.len() ==> {
                let entry = (#[trigger] history[h])[t];
                let highest = peak(k, history, t);
                &&& !k.below(highest, entry)
                &&& k.reaches(entry, entry) ==> k.reaches(highest, highest)
            },
    decreases history.len(),
{
    if history.len() > 0 {
        let shorter = history.drop_last();
        law_peak_is_largest(k, shorter, t);
        let before = peak(k, shorter, t);
        let now = peak(k, history, t);
        let last = history.last()[t];
        assert(history[history.len() - 1] == history.last());
        if now != last && now != k.num(0) {
            let h = choose|h: int|
                0 <= h < shorter.len() && before == (#[trigger] shorter[h])[t];
            assert(history[h] == shorter[h]);
        }
        assert forall|h: int| 0 <= h < history.len() implies {
            let entry = (#[trigger] history[h])[t];
            &&& !k.below(now, entry)
            &&& k.reaches(entry, entry) ==> k.reaches(now, now)
        } by {
            let entry = history[h][t];
            if h < shorter.len() {
                assert(shorter[h] == history[h]);
                assert(!k.below(before, entry));
            }
        }
    }
}

/// The history after a series of entries.
pub open spec fn history_after<T>(history: Seq<Seq<T>>, series: Seq<Seq<T>>) -> Seq<Seq<T>>
    decreases series.len(),
{
    if series.len() == 0 {
        history
    } else {
        remembered(history_after(history, series.drop_last()), series.last())
    }
}

/// A history looks back exactly as many frames as it is long: it holds the most
/// recent entries, the newest first, and older ones only while there are not
/// enough.
pub proof fn law_history_is_recent<T>(history: Seq<Seq<T>>, series: Seq<Seq<T>>)
    requires
        history.len() >= 1,
    ensures
        history_after(history, series).len() == history.len(),
        forall|h: int|
            0 <= h < history.len() ==> #[trigger] history_after(history, series)[h] == (if h
                < series.len() {
                series[series.len() - 1 - h]
            } else {
                history[h - series.len()]
            }),
    decreases series.len(),
{
    if series.len() > 0 {
        let shorter = series.drop_last();
        law_history_is_recent(history, shorter);
        let before = history_after(history, shorter);
        let now = history_after(history, series);
        assert forall|h: int| 0 <= h < history.len() implies #[trigger] now[h] == (if h
            < series.len() {
            series[series.len() - 1 - h]
        } else {
            history[h - series.len()]
        }) by {
            if h > 0 {
                assert(now[h] == before[h - 1]);
            }
        }
    }
}

/// The similarities that a series of feature vectors has to the targets, one
/// entry for each vector.
pub open spec fn entries_of<T, K: Analysis<T>>(
    k: K,
    targets: Seq<Voice<T>>,
    series: Seq<Seq<T>>,
) -> Seq<Seq<T>> {
    series.map_values(|features: Seq<T>| matches_of(k, features, targets))
}

/// The smoothed similarities of a new signal path after a series of feature
/// vectors look back exactly as many of them as the mode says.  That of target `t`
/// is 0 or the best match of one of those; it is not below 0 nor below any of
/// them, and nothing older has a part in it.
pub proof fn law_smoothing_takes_the_recent_maximum<T, K: Analysis<T>>(
    k: K,
    mode: ProcessingMode,
    targets: Seq<Voice<T>>,
    sample_rate: u32,
    series: Seq<Seq<T>>,
    t: int,
)
    requires
        strictly_ordered::<T, K>(k),
        0 <= t < targets.len(),
    ensures
        ({
            let start = initial(k, mode, targets, sample_rate).history;
            let history = history_after(start, entries_of(k, targets, series));
            let smoothed = peaks(k, history, targets.len());
            let reach = mode.temporal_smooth_frames();
            &&& smoothed.len() == targets.len()
            &&& smoothed[t] == k.num(0) || exists|j: int|
                0 <= j < series.len() && series.len() - reach <= j && smoothed[t] == best_match(
                    k,
                    #[trigger] series[j],
                    targets[t].reference,
                )
            &&& !k.below(smoothed[t], k.num(0))
            &&& forall|j: int|
                0 <= j < series.len() && series.len() - reach <= j ==> !k.below(
                    smoothed[t],
                    best_match(k, #[trigger] series[j], targets[t].reference),
                )
        }),
{
    let start = initial(k, mode, targets, sample_rate).history;
    let entries = entries_of(k, targets, series);
    let history = history_after(start, entries);
    let reach = mode.temporal_smooth_frames();
    let highest = peak(k, history, t);
    law_history_is_recent(start, entries);
    law_peak_is_largest(k, history, t);
    assert(peaks(k, history, targets.len())[t] == highest);
    if highest != k.num(0) {
        let h = choose|h: int| 0 <= h < history.len() && highest == (#[trigger] history[h])[t];
        if h < series.len() {
            let j = series.len() - 1 - h;
            assert(entries[j] == matches_of(k, series[j], targets));
            assert(highest == best_match(k, series[j], targets[t].reference));
        } else {
            assert(start[h - series.len()][t] == k.num(0));
        }
    }
    assert forall|j: int|
        0 <= j < series.len() && series.len() - reach <= j implies !k.below(
        highest,
        best_match(k, #[trigger] series[j], targets[t].reference),
    ) by {
        let h = series.len() - 1 - j;
        assert(history[h] == entries[j]);
        assert(history[h][t] == best_match(k, series[j], targets[t].reference));
    }
}

/// Whether the product of two values does not depend on their order.
pub open spec fn commute<T, K: Arithmetic<T>>(k: K, a: T, b: T) -> bool {
    k.times(a, b) == k.times(b, a)
}

/// Where the values at the same places of two vectors commute, and their norms do,
/// the similarity of the first to the second is that of the second to the first.
pub proof fn law_similarity_is_symmetric<T, K: Analysis<T>>(k: K, a: Seq<T>, b: Seq<T>)
    requires
        forall|i: int| 0 <= i < a.len() && i < b.len() ==> commute(k, #[trigger] a[i], b[i]),
        commute(k, k.root(energy(k, a)), k.root(energy(k, b))),
    ensures
        cosine_of(k, a, b) == cosine_of(k, b, a),
{
    if a.len() == b.len() {
        assert forall|i: int| 0 <= i < a.len() implies k.times(a[i], b[i]) == k.times(b[i], a[i]) by {
            assert(commute(k, a[i], b[i]));
        }
        assert(products(k, a, b) =~= products(k, b, a));
    }
}

/// Whether the similarity of two vectors is a quotient: they have the same length in
/// values, and neither is next to nothing.
pub open spec fn have_an_angle<T, K: Analysis<T>>(k: K, a: Seq<T>, b: Seq<T>) -> bool {
    &&& a.len() == b.len()
    &&& a.len() > 0
    &&& !k.below(k.root(energy(k, a)), negligible(k))
    &&& !k.below(k.root(energy(k, b)), negligible(k))
}

/// The similarity of two vectors lies between `-limit` and `limit` where their
/// product is within `limit` times the product of their norms, and a value within
/// that, divided by the product of the norms, is within `limit`.  The limit is 1 and
/// what rounding may add to it.
pub proof fn law_similarity_keeps_to_a_limit<T, K: Analysis<T>>(
    k: K,
    a: Seq<T>,
    b: Seq<T>,
    limit: T,
)
    requires
        between(k, k.minus(k.num(0), limit), k.num(0), limit),
        ({
            let norms = k.times(k.root(energy(k, a)), k.root(energy(k, b)));
            let most = k.times(limit, norms);
            let least = k.minus(k.num(0), most);
            have_an_angle(k, a, b) ==> {
                &&& between(k, least, inner_product(k, a, b), most)
                &&& forall|x: T|
                    between(k, least, x, most) ==> between(
                        k,
                        k.minus(k.num(0), limit),
                        #[trigger] k.over(x, norms),
                        limit,
                    )
            }
        }),
    ensures
        between(k, k.minus(k.num(0), limit), cosine_of(k, a, b), limit),
{
}

/// The similarity of two vectors lies between -1 and 1 where their product is within
/// the product of their norms, and a value within that, divided by it, is between -1
/// and 1.
pub proof fn law_similarity_is_between_minus_one_and_one<T, K: Analysis<T>>(
    k: K,
    a: Seq<T>,
    b: Seq<T>,
)
    requires
        between(k, k.minus(k.num(0), k.num(1)), k.num(0), k.num(1)),
        ({
            let norms = k.times(k.root(energy(k, a)), k.root(energy(k, b)));
            have_an_angle(k, a, b) ==> {
                &&& between(k, k.minus(k.num(0), norms), inner_product(k, a, b), norms)
                &&& forall|x: T|
                    between(k, k.minus(k.num(0), norms), x, norms) ==> between(
                        k,
                        k.minus(k.num(0), k.num(1)),
                        #[trigger] k.over(x, norms),
                        k.num(1),
                    )
            }
        }),
    ensures
        between(k, k.minus(k.num(0), k.num(1)), cosine_of(k, a, b), k.num(1)),
{
}

/// A vector that has a length is as similar to itself as can be, 1, where the square
/// of the root of its energy is the energy, and the energy goes into itself once.
pub proof fn law_similarity_to_itself_is_one<T, K: Analysis<T>>(k: K, a: Seq<T>)
    requires
        a.len() > 0,
        !k.below(k.root(energy(k, a)), negligible(k)),
        k.times(k.root(energy(k, a)), k.root(energy(k, a))) == energy(k, a),
        k.over(energy(k, a), energy(k, a)) == k.num(1),
    ensures
        cosine_of(k, a, a) == k.num(1),
{
}

/// A recording is described as the stream is: where a target was recorded from
/// one frame that is not silent, and that frame is heard again, the target's
/// newest similarity is that of the frame's features to themselves, where that
/// compares.
pub proof fn law_recordings_are_recognised<T, K: Analysis<T>>(
    k: K,
    p: Path<T>,
    t: int,
    frame: Seq<T>,
)
    requires
        0 <= t < p.targets.len(),
        p.frame_size == frame_len(p.mode, p.sample_rate),
        p.window == window_of(k, p.mode, p.frame_size),
        frame.len() == p.frame_size,
        !silent(k, frame),
        p.targets[t].reference == thinned(spoken_features(k, p.mode, p.sample_rate, frame)),
    ensures
        ({
            let features = features_of(k, p.mode, p.sample_rate, p.window, frame);
            compares(k, cosine_of(k, features, features)) ==> heard(k, p, frame).history[0][t]
                == cosine_of(k, features, features)
        }),
{
    let features = features_of(k, p.mode, p.sample_rate, p.window, frame);
    let n = p.frame_size as int;
    assert(frame.take(n) =~= frame);
    assert(frame.skip(n).len() == 0);
    let spoken = spoken_features(k, p.mode, p.sample_rate, frame);
    assert(spoken_features(k, p.mode, p.sample_rate, frame.skip(n)) =~= Seq::empty());
    assert(spoken =~= seq![features]);
    assert(spoken.drop_last() =~= Seq::empty());
    assert(highest(k, features, spoken.drop_last()) is None);
}

/// Whatever was recorded is recognised: where a frame of the recording of a
/// target is heard again, and none of the recording was thinned out, the
/// target's newest similarity is not below that of the frame's features to
/// themselves.
pub proof fn law_recorded_frames_are_recognised<T, K: Analysis<T>>(
    k: K,
    p: Path<T>,
    t: int,
    audio: Seq<T>,
    i: nat,
)
    requires
        strictly_ordered::<T, K>(k),
        0 <= t < p.targets.len(),
        p.frame_size == frame_len(p.mode, p.sample_rate),
        p.window == window_of(k, p.mode, p.frame_size),
        p.targets[t].reference == thinned(spoken_features(k, p.mode, p.sample_rate, audio)),
        spoken_features(k, p.mode, p.sample_rate, audio).len() <= MAX_REFERENCES,
        i * p.frame_size + p.frame_size <= audio.len(),
        !silent(k, nth_frame(audio, p.frame_size, i)),
    ensures
        ({
            let frame = nth_frame(audio, p.frame_size, i);
            let features = features_of(k, p.mode, p.sample_rate, p.window, frame);
            !k.below(heard(k, p, frame).history[0][t], cosine_of(k, features, features))
        }),
{
    let frame = nth_frame(audio, p.frame_size, i);
    let features = features_of(k, p.mode, p.sample_rate, p.window, frame);
    let spoken = spoken_features(k, p.mode, p.sample_rate, audio);
    lemma_spoken_frame(k, p.mode, p.sample_rate, audio, i);
    let at = choose|at: int| 0 <= at < spoken.len() && spoken[at] == features;
    law_best_match_is_largest(k, features, spoken);
    assert(!k.below(best_match(k, features, spoken), cosine_of(k, features, spoken[at])));
}

/// The features of those of a series of frames that are not silent, as a signal path of a
/// mode sees them.
pub open spec fn features_heard<T, K: Analysis<T>>(
    k: K,
    mode: ProcessingMode,
    sample_rate: u32,
    window: Seq<T>,
    frames: Seq<Seq<T>>,
) -> Seq<Seq<T>>
    decreases frames.len(),
{
    if frames.len() == 0 {
        Seq::empty()
    } else {
        let before = features_heard(k, mode, sample_rate, window, frames.drop_last());
        if silent(k, frames.last()) {
            before
        } else {
            before.push(features_of(k, mode, sample_rate, window, frames.last()))
        }
    }
}

proof fn lemma_history_of_frames<T, K: Analysis<T>>(k: K, p: Path<T>, frames: Seq<Seq<T>>)
    requires
        p.history.len() >= 1,
    ensures
        ({
            let q = listened(k, p, frames);
            let series = features_heard(k, p.mode, p.sample_rate, p.window, frames);
            &&& same_setup(q, p)
            &&& q.history == history_after(p.history, entries_of(k, p.targets, series))
            &&& series.len() > 0 ==> q.similarities == peaks(k, q.history, p.targets.len())
            &&& series.len() == 0 ==> q.similarities == p.similarities
            &&& q.analysed == p.analysed + series.len()
            &&& q.frames == p.frames + frames.len()
        }),
    decreases frames.len(),
{
    let series = features_heard(k, p.mode, p.sample_rate, p.window, frames);
    let entries = entries_of(k, p.targets, series);
    if frames.len() == 0 {
        assert(entries =~= Seq::empty());
    } else {
        let fewer = frames.drop_last();
        lemma_history_of_frames(k, p, fewer);
        let before = features_heard(k, p.mode, p.sample_rate, p.window, fewer);
        if !silent(k, frames.last()) {
            assert(entries.drop_last() =~= entries_of(k, p.targets, before));
            assert(entries.last() == matches_of(k, series.last(), p.targets));
        }
    }
}

/// In a stream of a new signal path, the similarity that a target is judged by is the
/// largest of its best matches in the frames heard last, as many that are not silent as the
/// mode looks back, and 0: it is 0 or one of these, and none of these and not 0 is above
/// it.  Silent frames have no part in it; all frames are counted, and those that are not
/// silent once more.
pub proof fn law_streams_are_judged_by_the_recent_maximum<T, K: Analysis<T>>(
    k: K,
    mode: ProcessingMode,
    targets: Seq<Voice<T>>,
    sample_rate: u32,
    frames: Seq<Seq<T>>,
    t: int,
)
    requires
        strictly_ordered::<T, K>(k),
        0 <= t < targets.len(),
    ensures
        ({
            let start = initial(k, mode, targets, sample_rate);
            let judged = listened(k, start, frames).similarities[t];
            let series = features_heard(k, mode, sample_rate, start.window, frames);
            let reach = match mode {
                ProcessingMode::Performance => 1int,
                ProcessingMode::Balanced => 3,
                ProcessingMode::Deep => 5,
            };
            &&& listened(k, start, frames).frames == frames.len()
            &&& listened(k, start, frames).analysed == series.len()
            &&& judged == k.num(0) || exists|j: int|
                0 <= j < series.len() && series.len() - reach <= j && judged == best_match(
                    k,
                    #[trigger] series[j],
                    targets[t].reference,
                )
            &&& !k.below(judged, k.num(0))
            &&& forall|j: int|
                0 <= j < series.len() && series.len() - reach <= j ==> !k.below(
                    judged,
                    best_match(k, #[trigger] series[j], targets[t].reference),
                )
        }),
{
    let start = initial(k, mode, targets, sample_rate);
    let series = features_heard(k, mode, sample_rate, start.window, frames);
    lemma_history_of_frames(k, start, frames);
    law_smoothing_takes_the_recent_maximum(k, mode, targets, sample_rate, series, t);
    if series.len() == 0 {
        assert(start.similarities[t] == k.num(0));
    }
}

/// The product of two values above 0 is above 0.
proof fn lemma_product_is_positive(a: real, b: real)
    by (nonlinear_arith)
    requires
        a > 0 as real,
        b > 0 as real,
    ensures
        a * b > 0 as real,
{
}

/// Without rounding, the similarity of two vectors is the cosine of the angle between them:
/// times their lengths, whose squares are the sums of the squares, it is the sum of the
/// products.  Vectors of which one has next to no length are not similar at all.
pub proof fn law_similarity_is_the_cosine<T, K: Analysis<T>>(
    k: K,
    value: spec_fn(T) -> real,
    m: Reals,
    a: Seq<T>,
    b: Seq<T>,
)
    requires
        faithful_analysis(k, value, m),
        a.len() == b.len(),
        a.len() > 0,
    ensures
        ({
            let la = value(k.root(energy(k, a)));
            let lb = value(k.root(energy(k, b)));
            let least = 1 as real / 10_000_000_000 as real;
            &&& la >= 0 as real && la * la == product_sum(value, a, a)
            &&& lb >= 0 as real && lb * lb == product_sum(value, b, b)
            &&& la >= least && lb >= least ==> value(cosine_of(k, a, b)) * (la * lb) == product_sum(
                value,
                a,
                b,
            )
            &&& la < least || lb < least ==> value(cosine_of(k, a, b)) == 0 as real
        }),
{
    lemma_inner_product_value(k, value, a, a);
    lemma_inner_product_value(k, value, b, b);
    lemma_inner_product_value(k, value, a, b);
    lemma_squares_sum_up(value, a);
    lemma_squares_sum_up(value, b);
    assert(root_squares(k, value, energy(k, a)));
    assert(root_squares(k, value, energy(k, b)));
    let la = value(k.root(energy(k, a)));
    let lb = value(k.root(energy(k, b)));
    let least = 1 as real / 10_000_000_000 as real;
    assert(value(k.num(1)) == 1 as real && value(k.num(10_000_000_000)) == 10_000_000_000 as real);
    assert(value(negligible(k)) == least);
    assert(value(k.num(0)) == 0 as real);
    if la >= least && lb >= least {
        lemma_product_is_positive(la, lb);
        lemma_over_times(product_sum(value, a, b), la * lb);
    }
}

/// Vectors of different lengths are not similar at all.
pub proof fn law_unequal_vectors_are_not_similar<T, K: Analysis<T>>(k: K, a: Seq<T>, b: Seq<T>)
    requires
        a.len() != b.len() || a.len() == 0,
    ensures
        cosine_of(k, a, b) == k.num(0),
{
}

} // verus!
