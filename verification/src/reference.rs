//! The features of a recorded voice.

use vstd::prelude::*;
use vstd::slice::{slice_subrange, slice_to_vec};

use crate::arithmetic::Analysis;
#[allow(unused_imports)]
use crate::arithmetic::{energy, exact_analysis, per_mille, products};
use crate::features::{extract_features, is_silent, mode_window};
#[allow(unused_imports)]
use crate::features::{features_of, silent, window_of};
use crate::framing::frame_size;
#[allow(unused_imports)]
use crate::framing::{frame_len, nth_frame, MIN_FRAME};
use crate::mode::ProcessingMode;
use crate::rounding::round_nearest;
#[allow(unused_imports)]
use crate::rounding::{
    lemma_nearest_error, lemma_nearest_monotonic, lemma_nearest_small, lemma_nearest_whole,
    lemma_spacing_bounds, nearest, spacing,
};
#[allow(unused_imports)]
use crate::target::rows;

verus! {

/// The largest number of feature vectors that are kept of a recording.
pub const MAX_REFERENCES: usize = 100;

/// The place of the `i`th of [`MAX_REFERENCES`] vectors that are taken at equal
/// distances from `n`: `i` times the `n / 100` of single precision, without the
/// fraction.  The distance and its multiples are kept in units of `2^-23`.
pub open spec fn pick(n: nat, i: nat) -> nat {
    let step = nearest(nearest(n, 1) * 0x80_0000, 100);
    nearest(i * step, 1) / 0x80_0000
}

/// A list thinned out to [`MAX_REFERENCES`] items at equal distances.
pub open spec fn thinned<A>(items: Seq<A>) -> Seq<A> {
    if items.len() > MAX_REFERENCES {
        Seq::new(MAX_REFERENCES as nat, |i: int| items[pick(items.len(), i as nat) as int])
    } else {
        items
    }
}

/// The features of the frames of a recording that are not silent, in order.  The
/// frames abut, and samples that do not fill a frame are left out.
pub open spec fn spoken_features<T, K: Analysis<T>>(
    k: K,
    mode: ProcessingMode,
    sample_rate: u32,
    audio: Seq<T>,
) -> Seq<Seq<T>>
    decreases audio.len(),
{
    let n = frame_len(mode, sample_rate);
    if audio.len() < n {
        Seq::empty()
    } else {
        let frame = audio.take(n as int);
        let rest = spoken_features(k, mode, sample_rate, audio.skip(n as int));
        if silent(k, frame) {
            rest
        } else {
            seq![features_of(k, mode, sample_rate, window_of(k, mode, n), frame)] + rest
        }
    }
}

/// The places picked lie inside the list and start at its beginning.
pub proof fn lemma_pick_in_range(n: nat, i: nat)
    requires
        n > MAX_REFERENCES,
        i < MAX_REFERENCES,
    ensures
        pick(n, i) < n,
        pick(n, 0) == 0,
{
    let c = nearest(n, 1);
    let scaled = c * 0x80_0000;
    let step = nearest(scaled, 100);
    let product = i * step;
    let u = nearest(product, 1);
    lemma_nearest_whole(n);
    lemma_nearest_error(scaled, 100);
    lemma_spacing_bounds(scaled / 100);
    assert(200 * step <= 0x100_0001 * c) by {
        let s = spacing(scaled / 100);
        assert(2 * 100 * step <= 2 * scaled + 100 * s);
    }
    lemma_nearest_whole(product);
    assert(product <= 99 * step) by (nonlinear_arith)
        requires
            product == i * step,
            i <= 99,
            step >= 0,
    ;
    assert(0 * step == 0) by (nonlinear_arith);
    lemma_nearest_whole(0);
}

/// Below a million, rounding moves the multiples of the distance by less than the
/// distance itself.
proof fn lemma_pick_error(n: nat, i: nat)
    requires
        MAX_REFERENCES < n < 1_000_000,
        i < MAX_REFERENCES,
    ensures
        ({
            let step = nearest(nearest(n, 1) * 0x80_0000, 100);
            let u = nearest(i * step, 1);
            &&& 100 * u <= 0x80_0000 * (i * n) + 100 * n
            &&& 0x80_0000 * (i * n) <= 100 * u + 100 * n
        }),
{
    let scaled = n * 0x80_0000;
    let step = nearest(scaled, 100);
    let s = spacing(scaled / 100);
    let product = i * step;
    lemma_nearest_small(n);
    lemma_nearest_error(scaled, 100);
    lemma_spacing_bounds(scaled / 100);
    assert(100 * s <= n);
    assert(2 * 100 * step <= 2 * scaled + 100 * s);
    assert(2 * scaled <= 2 * 100 * step + 100 * s);
    assert(200 * product <= 0x100_0000 * (i * n) + i * n) by (nonlinear_arith)
        requires
            product == i * step,
            200 * step <= 0x100_0000 * n + n,
    ;
    assert(0x100_0000 * (i * n) <= 200 * product + i * n) by (nonlinear_arith)
        requires
            product == i * step,
            0x100_0000 * n <= 200 * step + n,
    ;
    assert(0 <= i * n <= 99 * n) by (nonlinear_arith)
        requires
            i <= 99,
    ;
    lemma_nearest_whole(product);
}

/// Below a million, the places picked differ from one another, and each is the
/// exact one or next to it.
proof fn lemma_pick_is_even(n: nat, i: nat, j: nat)
    requires
        MAX_REFERENCES < n < 1_000_000,
        i <= j < MAX_REFERENCES,
    ensures
        i < j ==> pick(n, i) < pick(n, j),
        i * n / 100 - 1 <= pick(n, i) <= i * n / 100 + 1,
{
    lemma_pick_error(n, i);
    lemma_pick_error(n, j);
    if i < j {
        assert(i * n + n <= j * n) by (nonlinear_arith)
            requires
                i + 1 <= j,
        ;
    }
}

/// Thinning out keeps exactly [`MAX_REFERENCES`] items of a longer list, each of
/// them one of the list, in their order and from the first on.  Of fewer than a
/// million items none is kept twice, and each that is kept stands at its share of
/// the list or next to it.
pub proof fn law_thinning_keeps_order<A>(items: Seq<A>, i: nat, j: nat)
    requires
        items.len() > MAX_REFERENCES,
        i <= j < MAX_REFERENCES,
    ensures
        thinned(items).len() == MAX_REFERENCES,
        thinned(items)[i as int] == items[pick(items.len(), i) as int],
        thinned(items)[0] == items[0],
        pick(items.len(), i) <= pick(items.len(), j) < items.len(),
        items.len() < 1_000_000 && i < j ==> pick(items.len(), i) < pick(items.len(), j),
        items.len() < 1_000_000 ==> i * items.len() / 100 - 1 <= pick(items.len(), i) <= i
            * items.len() / 100 + 1,
{
    let n = items.len();
    lemma_pick_in_range(n, j);
    let step = nearest(nearest(n, 1) * 0x80_0000, 100);
    assert(i * step <= j * step) by (nonlinear_arith)
        requires
            i <= j,
            step >= 0,
    ;
    lemma_nearest_monotonic(i * step, j * step);
    assert(nearest(i * step, 1) / 0x80_0000 <= nearest(j * step, 1) / 0x80_0000);
    if n < 1_000_000 {
        lemma_pick_is_even(n, i, j);
    }
}

/// The features of a recording hold no more than [`MAX_REFERENCES`] vectors, one
/// for each frame that is not silent where there are no more of those.
pub proof fn law_references_are_bounded<T, K: Analysis<T>>(
    k: K,
    mode: ProcessingMode,
    sample_rate: u32,
    audio: Seq<T>,
)
    ensures
        ({
            let all = spoken_features(k, mode, sample_rate, audio);
            &&& thinned(all).len() <= MAX_REFERENCES
            &&& all.len() <= MAX_REFERENCES ==> thinned(all) == all
            &&& all.len() * frame_len(mode, sample_rate) <= audio.len()
        }),
{
    lemma_spoken_len(k, mode, sample_rate, audio);
}

proof fn lemma_spoken_len<T, K: Analysis<T>>(
    k: K,
    mode: ProcessingMode,
    sample_rate: u32,
    audio: Seq<T>,
)
    ensures
        spoken_features(k, mode, sample_rate, audio).len() * frame_len(mode, sample_rate)
            <= audio.len(),
    decreases audio.len(),
{
    let n = frame_len(mode, sample_rate);
    if audio.len() < n {
        assert(0 * n == 0) by (nonlinear_arith);
    } else {
        let rest = audio.skip(n as int);
        lemma_spoken_len(k, mode, sample_rate, rest);
        let m = spoken_features(k, mode, sample_rate, rest).len();
        assert((m + 1) * n == m * n + n) by (nonlinear_arith);
    }
}

/// A recording gives no features exactly where all its complete frames are
/// silent.
pub proof fn law_only_silence_has_no_features<T, K: Analysis<T>>(
    k: K,
    mode: ProcessingMode,
    sample_rate: u32,
    audio: Seq<T>,
)
    ensures
        spoken_features(k, mode, sample_rate, audio).len() == 0 <==> (forall|i: nat|
            i * frame_len(mode, sample_rate) + frame_len(mode, sample_rate) <= audio.len()
                ==> silent(k, #[trigger] nth_frame(audio, frame_len(mode, sample_rate), i))),
    decreases audio.len(),
{
    let n = frame_len(mode, sample_rate);
    if audio.len() < n {
        assert forall|i: nat| i * n + n <= audio.len() implies silent(
            k,
            #[trigger] nth_frame(audio, n, i),
        ) by {
            assert(i * n >= 0) by (nonlinear_arith);
        }
    } else {
        let rest = audio.skip(n as int);
        law_only_silence_has_no_features(k, mode, sample_rate, rest);
        assert(0 * n == 0) by (nonlinear_arith);
        assert(nth_frame(audio, n, 0) =~= audio.take(n as int));
        if spoken_features(k, mode, sample_rate, audio).len() == 0 {
            assert forall|i: nat| i * n + n <= audio.len() implies silent(
                k,
                #[trigger] nth_frame(audio, n, i),
            ) by {
                if i > 0 {
                    let j = (i - 1) as nat;
                    assert(i * n == j * n + n && j * n >= 0) by (nonlinear_arith)
                        requires
                            i == j + 1,
                    ;
                    assert(nth_frame(audio, n, i) =~= nth_frame(rest, n, j));
                }
            }
        } else if silent(k, audio.take(n as int)) {
            let j = choose|j: nat|
                j * n + n <= rest.len() && !silent(k, #[trigger] nth_frame(rest, n, j));
            assert((j + 1) * n == j * n + n && j * n >= 0) by (nonlinear_arith);
            assert(nth_frame(audio, n, j + 1) =~= nth_frame(rest, n, j));
        }
    }
}

/// The features of two recordings one after the other, of which the first is cut
/// between two frames, are those of the first and then those of the second.
pub proof fn law_features_join<T, K: Analysis<T>>(
    k: K,
    mode: ProcessingMode,
    sample_rate: u32,
    a: Seq<T>,
    b: Seq<T>,
)
    requires
        a.len() % frame_len(mode, sample_rate) == 0,
    ensures
        spoken_features(k, mode, sample_rate, a + b) == spoken_features(k, mode, sample_rate, a)
            + spoken_features(k, mode, sample_rate, b),
    decreases a.len(),
{
    let n = frame_len(mode, sample_rate);
    let first = spoken_features(k, mode, sample_rate, a);
    let second = spoken_features(k, mode, sample_rate, b);
    if a.len() < n {
        vstd::arithmetic::div_mod::lemma_small_mod(a.len(), n);
        assert(a + b =~= b);
        assert(first + second =~= second);
    } else {
        let rest = a.skip(n as int);
        vstd::arithmetic::div_mod::lemma_mod_sub_multiples_vanish(a.len() as int, n as int);
        law_features_join(k, mode, sample_rate, rest, b);
        assert((a + b).take(n as int) =~= a.take(n as int));
        assert((a + b).skip(n as int) =~= rest + b);
        assert(spoken_features(k, mode, sample_rate, a + b) =~= first + second);
    }
}

/// Every complete frame of some samples is silent.
pub open spec fn all_silent<T, K: Analysis<T>>(k: K, samples: Seq<T>, n: nat) -> bool {
    forall|i: nat|
        i * n + n <= samples.len() ==> silent(k, #[trigger] nth_frame(samples, n, i))
}

/// Silent frames before and after a recording, and a part of a frame at its end,
/// add nothing to its references.
pub proof fn law_silence_adds_no_references<T, K: Analysis<T>>(
    k: K,
    mode: ProcessingMode,
    sample_rate: u32,
    before: Seq<T>,
    audio: Seq<T>,
    after: Seq<T>,
)
    requires
        before.len() % frame_len(mode, sample_rate) == 0,
        audio.len() % frame_len(mode, sample_rate) == 0,
        all_silent(k, before, frame_len(mode, sample_rate)),
        all_silent(k, after, frame_len(mode, sample_rate)),
    ensures
        thinned(spoken_features(k, mode, sample_rate, before + audio + after)) == thinned(
            spoken_features(k, mode, sample_rate, audio),
        ),
{
    let n = frame_len(mode, sample_rate);
    assert((before + audio).len() % n == 0) by {
        vstd::arithmetic::div_mod::lemma_add_mod_noop(
            before.len() as int,
            audio.len() as int,
            n as int,
        );
        vstd::arithmetic::div_mod::lemma_small_mod(0, n);
    }
    law_features_join(k, mode, sample_rate, before + audio, after);
    law_features_join(k, mode, sample_rate, before, audio);
    law_only_silence_has_no_features(k, mode, sample_rate, before);
    law_only_silence_has_no_features(k, mode, sample_rate, after);
    let wanted = spoken_features(k, mode, sample_rate, audio);
    assert(spoken_features(k, mode, sample_rate, before + audio + after) =~= wanted);
}

/// So many zeros.
pub open spec fn zeros<T, K: Analysis<T>>(k: K, len: nat) -> Seq<T> {
    Seq::new(len, |i: int| k.num(0))
}

/// Zeros are silent where 0 is what the arithmetic takes it for: its square, its
/// sum with itself, its mean and its root are 0, and it is below a thousandth.
pub proof fn law_zeros_are_silent<T, K: Analysis<T>>(k: K, len: nat, n: nat)
    requires
        k.times(k.num(0), k.num(0)) == k.num(0),
        k.plus(k.num(0), k.num(0)) == k.num(0),
        k.over(k.num(0), k.num(n as u64)) == k.num(0),
        k.root(k.num(0)) == k.num(0),
        k.below(k.num(0), per_mille(k, 1)),
    ensures
        all_silent(k, zeros(k, len), n),
{
    lemma_zeros_have_no_energy(k, n);
    assert forall|i: nat| i * n + n <= len implies silent(
        k,
        #[trigger] nth_frame(zeros(k, len), n, i),
    ) by {
        assert(i * n >= 0) by (nonlinear_arith);
        assert(nth_frame(zeros(k, len), n, i) =~= zeros(k, n));
    }
}

proof fn lemma_zeros_have_no_energy<T, K: Analysis<T>>(k: K, n: nat)
    requires
        k.times(k.num(0), k.num(0)) == k.num(0),
        k.plus(k.num(0), k.num(0)) == k.num(0),
    ensures
        energy(k, zeros(k, n)) == k.num(0),
    decreases n,
{
    let terms = products(k, zeros(k, n), zeros(k, n));
    if n > 0 {
        let fewer = (n - 1) as nat;
        lemma_zeros_have_no_energy(k, fewer);
        assert(terms.drop_last() =~= products(k, zeros(k, fewer), zeros(k, fewer)));
    }
}

/// Every complete frame that is not silent has its features among those of the
/// recording.
pub proof fn lemma_spoken_frame<T, K: Analysis<T>>(
    k: K,
    mode: ProcessingMode,
    sample_rate: u32,
    audio: Seq<T>,
    i: nat,
)
    requires
        i * frame_len(mode, sample_rate) + frame_len(mode, sample_rate) <= audio.len(),
        !silent(k, nth_frame(audio, frame_len(mode, sample_rate), i)),
    ensures
        spoken_features(k, mode, sample_rate, audio).contains(
            features_of(
                k,
                mode,
                sample_rate,
                window_of(k, mode, frame_len(mode, sample_rate)),
                nth_frame(audio, frame_len(mode, sample_rate), i),
            ),
        ),
    decreases i,
{
    let n = frame_len(mode, sample_rate);
    let all = spoken_features(k, mode, sample_rate, audio);
    let wanted = features_of(k, mode, sample_rate, window_of(k, mode, n), nth_frame(audio, n, i));
    let rest = audio.skip(n as int);
    if i == 0 {
        assert(0 * n == 0) by (nonlinear_arith);
        assert(nth_frame(audio, n, 0) =~= audio.take(n as int));
        assert(all[0] == wanted);
    } else {
        let j = (i - 1) as nat;
        assert(i * n == j * n + n && j * n >= 0) by (nonlinear_arith)
            requires
                i == j + 1,
        ;
        assert(nth_frame(audio, n, i) =~= nth_frame(rest, n, j));
        lemma_spoken_frame(k, mode, sample_rate, rest, j);
        let later = spoken_features(k, mode, sample_rate, rest);
        let at = choose|at: int| 0 <= at < later.len() && later[at] == wanted;
        if silent(k, audio.take(n as int)) {
            assert(all[at] == wanted);
        } else {
            assert(all[at + 1] == wanted);
        }
    }
}

proof fn lemma_spoken_fit_the_mode<T, K: Analysis<T>>(
    k: K,
    mode: ProcessingMode,
    sample_rate: u32,
    audio: Seq<T>,
    r: int,
)
    requires
        0 <= r < spoken_features(k, mode, sample_rate, audio).len(),
    ensures
        spoken_features(k, mode, sample_rate, audio)[r].len() == (if mode is Performance {
            4
        } else {
            32int
        }),
    decreases audio.len(),
{
    let n = frame_len(mode, sample_rate);
    let rest = audio.skip(n as int);
    let later = spoken_features(k, mode, sample_rate, rest);
    if silent(k, audio.take(n as int)) {
        lemma_spoken_fit_the_mode(k, mode, sample_rate, rest, r);
    } else if r > 0 {
        assert(spoken_features(k, mode, sample_rate, audio)[r] == later[r - 1]);
        lemma_spoken_fit_the_mode(k, mode, sample_rate, rest, r - 1);
    }
}

/// Every vector that is kept of a recording has as many values as the features of the mode:
/// 32 with a transform and 4 without.
pub proof fn law_references_fit_the_mode<T, K: Analysis<T>>(
    k: K,
    mode: ProcessingMode,
    sample_rate: u32,
    audio: Seq<T>,
    r: int,
)
    requires
        0 <= r < thinned(spoken_features(k, mode, sample_rate, audio)).len(),
    ensures
        thinned(spoken_features(k, mode, sample_rate, audio))[r].len() == (if mode is Performance {
            4
        } else {
            32int
        }),
{
    let all = spoken_features(k, mode, sample_rate, audio);
    if all.len() > MAX_REFERENCES {
        lemma_pick_in_range(all.len(), r as nat);
        lemma_spoken_fit_the_mode(k, mode, sample_rate, audio, pick(all.len(), r as nat) as int);
    } else {
        lemma_spoken_fit_the_mode(k, mode, sample_rate, audio, r);
    }
}

/// The place of the `i`th vector that is kept of `n`.
pub fn pick_index(n: usize, i: usize) -> (r: usize)
    requires
        n > MAX_REFERENCES,
        i < MAX_REFERENCES,
    ensures
        r == pick(n as nat, i as nat),
        r < n,
{
    proof {
        lemma_nearest_whole(n as nat);
    }
    let count: u128 = round_nearest(n as u128, 1);
    let scaled: u128 = count * 0x80_0000;
    proof {
        lemma_nearest_error(scaled as nat, 100);
        lemma_spacing_bounds(scaled as nat / 100);
    }
    let step: u128 = round_nearest(scaled, 100);
    assert(200 * step <= 0x100_0001 * count) by {
        let s = spacing(scaled as nat / 100);
        assert(2 * 100 * step <= 2 * scaled + 100 * s);
    }
    assert(0 <= i * step <= 99 * step) by (nonlinear_arith)
        requires
            i <= 99,
            step >= 0,
    ;
    let place: u128 = round_nearest(i as u128 * step, 1) / 0x80_0000;
    proof {
        lemma_pick_in_range(n as nat, i as nat);
    }
    place as usize
}

/// The feature vectors of all frames of a recording that are not silent.
pub fn extract_spoken_features<T: Copy, K: Analysis<T>>(
    k: &K,
    audio: &[T],
    mode: ProcessingMode,
    actual_sample_rate: u32,
) -> (r: Vec<Vec<T>>)
    requires
        exact_analysis::<T, K>(*k),
    ensures
        rows(r@) == spoken_features(*k, mode, actual_sample_rate, audio@),
{
    let n: usize = frame_size(mode, actual_sample_rate);
    let window = mode_window(k, mode, n);
    let ghost all = spoken_features(*k, mode, actual_sample_rate, audio@);

    let mut features: Vec<Vec<T>> = Vec::new();
    let mut pos: usize = 0;
    assert(audio@.skip(0) =~= audio@);
    while audio.len() - pos >= n
        invariant
            exact_analysis::<T, K>(*k),
            n == frame_len(mode, actual_sample_rate),
            MIN_FRAME <= n <= 0x1000_0000,
            window@ == window_of(*k, mode, n as nat),
            window@.len() == n,
            pos <= audio@.len(),
            all =~= rows(features@) + spoken_features(
                *k,
                mode,
                actual_sample_rate,
                audio@.skip(pos as int),
            ),
        decreases audio@.len() - pos,
    {
        let frame = slice_subrange(audio, pos, pos + n);
        let ghost ahead = audio@.skip(pos as int);
        assert(frame@ =~= ahead.take(n as int));
        assert(ahead.skip(n as int) =~= audio@.skip(pos + n));
        if !is_silent(k, frame) {
            let feat = extract_features(k, mode, actual_sample_rate, &window, frame);
            let ghost before = rows(features@);
            features.push(feat);
            assert(rows(features@) =~= before.push(feat@));
        }
        pos += n;
    }
    assert(rows(features@) =~= all);
    features
}

/// The feature vectors of a recording: one for each frame that is not silent,
/// thinned out where there are more than [`MAX_REFERENCES`].
pub fn build_reference_features<T: Copy, K: Analysis<T>>(
    k: &K,
    audio: &[T],
    mode: ProcessingMode,
    actual_sample_rate: u32,
) -> (r: Vec<Vec<T>>)
    requires
        exact_analysis::<T, K>(*k),
    ensures
        rows(r@) == thinned(spoken_features(*k, mode, actual_sample_rate, audio@)),
        r@.len() <= MAX_REFERENCES,
{
    let features = extract_spoken_features(k, audio, mode, actual_sample_rate);
    let ghost all = rows(features@);
    if features.len() > MAX_REFERENCES {
        let mut kept: Vec<Vec<T>> = Vec::new();
        let mut i: usize = 0;
        while i < MAX_REFERENCES
            invariant
                i <= MAX_REFERENCES,
                features@.len() > MAX_REFERENCES,
                rows(features@) == all,
                kept@.len() == i,
                rows(kept@) =~= thinned(all).take(i as int),
            decreases MAX_REFERENCES - i,
        {
            let place: usize = pick_index(features.len(), i);
            let ghost before = rows(kept@);
            kept.push(slice_to_vec(features[place].as_slice()));
            assert(rows(kept@) =~= before.push(all[place as int]));
            i += 1;
        }
        assert(rows(kept@) =~= thinned(all));
        kept
    } else {
        features
    }
}

/// A recording of one frame gives the features of that frame in the mode, at the sample rate
/// and behind the window that a live frame is looked at with, and none where it is silent.
pub proof fn law_one_frame_gives_one_vector<T, K: Analysis<T>>(
    k: K,
    mode: ProcessingMode,
    sample_rate: u32,
    frame: Seq<T>,
)
    requires
        frame.len() == frame_len(mode, sample_rate),
    ensures
        silent(k, frame) ==> spoken_features(k, mode, sample_rate, frame).len() == 0,
        !silent(k, frame) ==> spoken_features(k, mode, sample_rate, frame) == seq![
            features_of(k, mode, sample_rate, window_of(k, mode, frame.len()), frame),
        ],
{
    let n = frame.len() as int;
    assert(frame.take(n) =~= frame);
    assert(spoken_features(k, mode, sample_rate, frame.skip(n)) =~= Seq::empty());
    if !silent(k, frame) {
        assert(spoken_features(k, mode, sample_rate, frame) =~= seq![
            features_of(k, mode, sample_rate, window_of(k, mode, frame.len()), frame),
        ]);
    }
}

} // verus!
