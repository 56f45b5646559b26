//! What holds of the features.

use vstd::prelude::*;

use crate::arithmetic::{
    between, cos_turns, energy, faithful, faithful_analysis, inner_product, lemma_cancel,
    lemma_inner_product_value, lemma_over_times, lemma_product_sum_joins, lemma_squares_sum_up,
    ln_adds, ln_rises, per_mille, power_grows, product_sum, products, root_squares, total,
    Analysis, Arithmetic, Reals,
};
use crate::features::{
    features_of, hann, hz_of, mel_edge, mel_levels, mel_of, mel_spectrum, negligible,
    power_spectrum, quarter_energies, rms, silent, subband_shares, triangle, unit_vector, weight,
    weighted_bins, whole_energy, window_of, Triangle,
};
use crate::mode::ProcessingMode;

verus! {

/// Samples with their polarity flipped.
pub open spec fn flipped<T, K: Arithmetic<T>>(k: K, samples: Seq<T>) -> Seq<T> {
    Seq::new(samples.len(), |i: int| k.minus(k.num(0), samples[i]))
}

/// The real and the imaginary parts of two spectra have the same squares.
pub open spec fn same_squares<T, K: Arithmetic<T>>(
    k: K,
    a: Seq<(T, T)>,
    b: Seq<(T, T)>,
) -> bool {
    &&& a.len() == b.len()
    &&& forall|j: int|
        0 <= j < a.len() ==> k.times((#[trigger] a[j]).0, a[j].0) == k.times(b[j].0, b[j].0)
            && k.times(a[j].1, a[j].1) == k.times(b[j].1, b[j].1)
}

/// Each of some samples and its opposite have the same square.
pub open spec fn opposites_square_alike<T, K: Arithmetic<T>>(k: K, samples: Seq<T>) -> bool {
    forall|i: int|
        0 <= i < samples.len() ==> k.times(
            k.minus(k.num(0), #[trigger] samples[i]),
            k.minus(k.num(0), samples[i]),
        ) == k.times(samples[i], samples[i])
}

proof fn lemma_flipped_energy<T, K: Arithmetic<T>>(k: K, samples: Seq<T>)
    requires
        opposites_square_alike(k, samples),
    ensures
        energy(k, flipped(k, samples)) == energy(k, samples),
{
    let other = flipped(k, samples);
    assert(products(k, other, other) =~= products(k, samples, samples));
}

/// Flipping the polarity of a frame does not change its features, where each of its
/// samples and its opposite have the same square, and a transform of the flipped
/// frame has bins of the same squares: only energies and powers count.
pub proof fn law_polarity_does_not_matter<T, K: Analysis<T>>(
    k: K,
    frame: Seq<T>,
    sample_rate: u32,
    bands: nat,
)
    requires
        frame.len() >= 1,
        k.spectrum(frame).len() == frame.len(),
        opposites_square_alike(k, frame),
        same_squares(k, k.spectrum(flipped(k, frame)), k.spectrum(frame)),
    ensures
        mel_spectrum(k, flipped(k, frame), sample_rate, bands) == mel_spectrum(
            k,
            frame,
            sample_rate,
            bands,
        ),
        subband_shares(k, flipped(k, frame)) == subband_shares(k, frame),
        silent(k, flipped(k, frame)) == silent(k, frame),
{
    let other = flipped(k, frame);
    let bins = k.spectrum(frame);
    let other_bins = k.spectrum(other);
    assert(power_spectrum(k, other_bins) =~= power_spectrum(k, bins));
    assert(mel_levels(k, other_bins, sample_rate, bands) == mel_levels(k, bins, sample_rate, bands));

    let n = frame.len() as int;
    let q1 = frame.subrange(0, n / 4);
    let q2 = frame.subrange(n / 4, n / 2);
    let q3 = frame.subrange(n / 2, 3 * n / 4);
    let q4 = frame.subrange(3 * n / 4, n);
    assert(other.subrange(0, n / 4) =~= flipped(k, q1));
    assert(other.subrange(n / 4, n / 2) =~= flipped(k, q2));
    assert(other.subrange(n / 2, 3 * n / 4) =~= flipped(k, q3));
    assert(other.subrange(3 * n / 4, n) =~= flipped(k, q4));
    assert(forall|i: int| 0 <= i < q1.len() ==> q1[i] == frame[i]);
    assert(forall|i: int| 0 <= i < q2.len() ==> q2[i] == frame[n / 4 + i]);
    assert(forall|i: int| 0 <= i < q3.len() ==> q3[i] == frame[n / 2 + i]);
    assert(forall|i: int| 0 <= i < q4.len() ==> q4[i] == frame[3 * n / 4 + i]);
    lemma_flipped_energy(k, q1);
    lemma_flipped_energy(k, q2);
    lemma_flipped_energy(k, q3);
    lemma_flipped_energy(k, q4);
    lemma_flipped_energy(k, frame);
    assert(rms(k, other) == rms(k, frame));
    assert(subband_shares(k, other) =~= subband_shares(k, frame));
}

/// Sums of values that are not below 0 reach each of the two, and the order carries
/// over.
pub open spec fn sums_reach_their_parts<T, K: Arithmetic<T>>(k: K) -> bool {
    &&& k.reaches(k.num(0), k.num(0))
    &&& forall|a: T, b: T, c: T| #[trigger]
        k.reaches(a, b) && #[trigger] k.reaches(b, c) ==> k.reaches(a, c)
    &&& forall|a: T, b: T|
        k.reaches(a, k.num(0)) && k.reaches(b, k.num(0)) ==> k.reaches(
            #[trigger] k.plus(a, b),
            a,
        ) && k.reaches(k.plus(a, b), b)
}

/// The square of each of some samples is not below 0.
pub open spec fn squares_reach_zero<T, K: Arithmetic<T>>(k: K, samples: Seq<T>) -> bool {
    forall|i: int|
        0 <= i < samples.len() ==> k.reaches(
            k.times(#[trigger] samples[i], samples[i]),
            k.num(0),
        )
}

proof fn lemma_total_reaches_zero<T, K: Arithmetic<T>>(k: K, terms: Seq<T>)
    requires
        sums_reach_their_parts::<T, K>(k),
        forall|i: int| 0 <= i < terms.len() ==> k.reaches(#[trigger] terms[i], k.num(0)),
    ensures
        k.reaches(total(k, terms), k.num(0)),
    decreases terms.len(),
{
    if terms.len() > 0 {
        lemma_total_reaches_zero(k, terms.drop_last());
        let before = total(k, terms.drop_last());
        let last = terms[terms.len() - 1];
        assert(k.reaches(k.plus(before, last), before));
    }
}

/// The energy of samples whose squares are not below 0 is not below 0.
proof fn lemma_energy_reaches_zero<T, K: Arithmetic<T>>(k: K, samples: Seq<T>)
    requires
        sums_reach_their_parts::<T, K>(k),
        squares_reach_zero(k, samples),
    ensures
        k.reaches(energy(k, samples), k.num(0)),
{
    let terms = products(k, samples, samples);
    assert forall|i: int| 0 <= i < terms.len() implies k.reaches(#[trigger] terms[i], k.num(0)) by {
        assert(terms[i] == k.times(samples[i], samples[i]));
    }
    lemma_total_reaches_zero(k, terms);
}

/// The shares of the four quarters of a frame in its energy lie between 0 and 1,
/// where the squares of its samples are not below 0, sums of such values reach their
/// parts, and a part over the energy of the frame, and a quarter, lie between 0
/// and 1.
pub proof fn law_shares_are_between_zero_and_one<T, K: Arithmetic<T>>(k: K, frame: Seq<T>, i: int)
    requires
        0 <= i < 4,
        sums_reach_their_parts::<T, K>(k),
        squares_reach_zero(k, frame),
        between(k, k.num(0), k.over(k.num(1), k.num(4)), k.num(1)),
        !k.below(whole_energy(k, frame), negligible(k)) ==> forall|part: T|
            between(k, k.num(0), part, whole_energy(k, frame)) ==> between(
                k,
                k.num(0),
                #[trigger] k.over(part, whole_energy(k, frame)),
                k.num(1),
            ),
    ensures
        subband_shares(k, frame).len() == 4,
        between(k, k.num(0), subband_shares(k, frame)[i], k.num(1)),
{
    let n = frame.len() as int;
    let q1 = frame.subrange(0, n / 4);
    let q2 = frame.subrange(n / 4, n / 2);
    let q3 = frame.subrange(n / 2, 3 * n / 4);
    let q4 = frame.subrange(3 * n / 4, n);
    lemma_part_squares(k, frame, 0, n / 4);
    lemma_part_squares(k, frame, n / 4, n / 2);
    lemma_part_squares(k, frame, n / 2, 3 * n / 4);
    lemma_part_squares(k, frame, 3 * n / 4, n);
    lemma_energy_reaches_zero(k, q1);
    lemma_energy_reaches_zero(k, q2);
    lemma_energy_reaches_zero(k, q3);
    lemma_energy_reaches_zero(k, q4);
    let e = quarter_energies(k, frame);
    let all = whole_energy(k, frame);
    let two = k.plus(e[0], e[1]);
    let three = k.plus(two, e[2]);
    assert(k.reaches(two, e[0]) && k.reaches(two, e[1]) && k.reaches(two, k.num(0)));
    assert(k.reaches(three, two) && k.reaches(three, e[2]) && k.reaches(three, k.num(0)));
    assert(k.reaches(all, three) && k.reaches(all, e[3]));
    assert(k.reaches(all, two));
    assert(between(k, k.num(0), e[i], all));
}

proof fn lemma_part_squares<T, K: Arithmetic<T>>(k: K, samples: Seq<T>, from: int, to: int)
    requires
        squares_reach_zero(k, samples),
        0 <= from <= to <= samples.len(),
    ensures
        squares_reach_zero(k, samples.subrange(from, to)),
{
    let part = samples.subrange(from, to);
    assert forall|i: int| 0 <= i < part.len() implies k.reaches(
        k.times(#[trigger] part[i], part[i]),
        k.num(0),
    ) by {
        assert(part[i] == samples[from + i]);
    }
}

/// A frequency that is brought to the mel scale and back is the same again where
/// the arithmetic does not round on the way: the scale of 2595 that is multiplied in
/// divides out, ten to the decimal logarithm gives the number back, and so do the
/// one that is added and taken off and the 700 that is divided and multiplied.
pub proof fn law_mel_scale_is_undone<T, K: Analysis<T>>(k: K, hz: T)
    requires
        ({
            let part = k.over(hz, k.num(700));
            let number = k.plus(k.num(1), part);
            let log = k.log(number);
            let decimal = k.over(log, k.log_ten());
            &&& k.over(k.over(k.times(k.num(2595), log), k.log_ten()), k.num(2595)) == decimal
            &&& k.raised(k.num(10), decimal) == number
            &&& k.minus(number, k.num(1)) == part
            &&& k.times(k.num(700), part) == hz
        }),
    ensures
        hz_of(k, mel_of(k, hz)) == hz,
{
}

// ---------------------------------------------------------------------------
// Without rounding
// ---------------------------------------------------------------------------

/// Without rounding, the root mean square is what it is called: its square, times the
/// number of samples, is the sum of the squares of the samples.  A frame is silent where
/// that sum is below a millionth for each sample.
pub proof fn law_loudness_is_the_root_mean_square<T, K: Analysis<T>>(
    k: K,
    value: spec_fn(T) -> real,
    m: Reals,
    frame: Seq<T>,
)
    requires
        faithful_analysis(k, value, m),
        1 <= frame.len() <= u64::MAX,
    ensures
        ({
            let level = value(rms(k, frame));
            let sum = product_sum(value, frame, frame);
            &&& level >= 0 as real
            &&& level * level * frame.len() as real == sum
            &&& silent(k, frame) <==> sum * (1_000_000 as real) < frame.len() as real
        }),
{
    let n = frame.len() as real;
    let sum = product_sum(value, frame, frame);
    lemma_inner_product_value(k, value, frame, frame);
    lemma_squares_sum_up(value, frame);
    let mean = k.over(energy(k, frame), k.num(frame.len() as u64));
    assert(value(k.num(frame.len() as u64)) == n);
    let v = value(mean);
    assert(v == sum / n);
    lemma_over_times(sum, n);
    assert(v >= 0 as real) by (nonlinear_arith)
        requires
            v * n == sum,
            sum >= 0 as real,
            n >= 1 as real,
    ;
    assert(root_squares(k, value, mean));
    let level = value(rms(k, frame));
    assert(level * level == v);
    let y = level * 1000 as real;
    let w = y * y;
    assert(w * n == sum * 1_000_000 as real) by (nonlinear_arith)
        requires
            w == y * y,
            y == level * 1000 as real,
            level * level * n == sum,
    ;
    assert(y < 1 as real ==> w < 1 as real) by (nonlinear_arith)
        requires
            w == y * y,
            y >= 0 as real,
    ;
    assert(y >= 1 as real ==> w >= 1 as real) by (nonlinear_arith)
        requires
            w == y * y,
    ;
    assert(w < 1 as real ==> w * n < n) by (nonlinear_arith)
        requires
            n >= 1 as real,
    ;
    assert(w >= 1 as real ==> w * n >= n) by (nonlinear_arith)
        requires
            n >= 1 as real,
    ;
    assert(value(per_mille(k, 1)) == 1 as real / 1000 as real);
}

/// Quarter `i` of a frame.
pub open spec fn quarter_of<T>(frame: Seq<T>, i: int) -> Seq<T> {
    frame.subrange(i * frame.len() / 4, (i + 1) * frame.len() / 4)
}

/// Without rounding, the share of a quarter of a frame, times the sum of the squares of
/// the whole frame, is the sum of the squares of that quarter; a frame with next to none
/// has equal shares.
pub proof fn law_shares_are_those_of_the_quarters<T, K: Arithmetic<T>>(
    k: K,
    value: spec_fn(T) -> real,
    frame: Seq<T>,
    i: int,
)
    requires
        faithful(k, value),
        0 <= i < 4,
    ensures
        ({
            let shares = subband_shares(k, frame);
            let sum = product_sum(value, frame, frame);
            let part = quarter_of(frame, i);
            &&& shares.len() == 4
            &&& sum >= 1 as real / 10_000_000_000 as real ==> value(shares[i]) * sum
                == product_sum(value, part, part)
            &&& sum < 1 as real / 10_000_000_000 as real ==> value(shares[i]) == 1 as real
                / 4 as real
        }),
{
    let n = frame.len() as int;
    let q1 = frame.subrange(0, n / 4);
    let q2 = frame.subrange(n / 4, n / 2);
    let q3 = frame.subrange(n / 2, 3 * n / 4);
    let q4 = frame.subrange(3 * n / 4, n);
    let part = quarter_of(frame, i);
    assert(quarter_of(frame, 0) == q1 && quarter_of(frame, 1) == q2 && quarter_of(frame, 2) == q3
        && quarter_of(frame, 3) == q4);
    assert(i == 0 || i == 1 || i == 2 || i == 3);
    lemma_inner_product_value(k, value, q1, q1);
    lemma_inner_product_value(k, value, q2, q2);
    lemma_inner_product_value(k, value, q3, q3);
    lemma_inner_product_value(k, value, q4, q4);
    lemma_product_sum_joins(value, q1, q2);
    lemma_product_sum_joins(value, q1 + q2, q3);
    lemma_product_sum_joins(value, q1 + q2 + q3, q4);
    assert(q1 + q2 + q3 + q4 =~= frame);
    let sum = product_sum(value, frame, frame);
    assert(value(whole_energy(k, frame)) == sum);
    assert(value(quarter_energies(k, frame)[i]) == product_sum(value, part, part));
    assert(value(negligible(k)) == 1 as real / 10_000_000_000 as real);
    if sum >= 1 as real / 10_000_000_000 as real {
        lemma_over_times(product_sum(value, part, part), sum);
    }
}

/// Without rounding, the power of a bin, times the number of bins, is the square of its
/// length; the spectrum is looked at up to the middle.
pub proof fn law_power_is_the_squared_length<T, K: Arithmetic<T>>(
    k: K,
    value: spec_fn(T) -> real,
    bins: Seq<(T, T)>,
    j: int,
)
    requires
        faithful(k, value),
        1 <= bins.len() <= u64::MAX,
        0 <= j <= bins.len() / 2,
    ensures
        power_spectrum(k, bins).len() == bins.len() / 2 + 1,
        value(power_spectrum(k, bins)[j]) * bins.len() as real == value(bins[j].0) * value(
            bins[j].0,
        ) + value(bins[j].1) * value(bins[j].1),
{
    let n = bins.len() as real;
    let s = value(bins[j].0) * value(bins[j].0) + value(bins[j].1) * value(bins[j].1);
    assert(value(k.num(bins.len() as u64)) == n);
    lemma_over_times(s, n);
}

/// The logarithm of 1 is 0, and that of 10 is above it.
proof fn lemma_ten_has_a_logarithm<T, K: Analysis<T>>(
    k: K,
    value: spec_fn(T) -> real,
    m: Reals,
)
    requires
        faithful_analysis(k, value, m),
    ensures
        (m.ln)(1 as real) == 0 as real,
        (m.ln)(10 as real) > 0 as real,
{
    assert(ln_adds(m, 1 as real, 1 as real));
    assert(1 as real * 1 as real == 1 as real) by (nonlinear_arith);
    assert(ln_rises(m, 1 as real, 10 as real));
}

/// A frequency on the mel scale, in values.
proof fn lemma_mel_value<T, K: Analysis<T>>(
    k: K,
    value: spec_fn(T) -> real,
    m: Reals,
    hz: T,
)
    requires
        faithful_analysis(k, value, m),
        value(hz) > -(700 as real),
    ensures
        value(mel_of(k, hz)) * (m.ln)(10 as real) == 2595 as real * (m.ln)(
            1 as real + value(hz) / 700 as real,
        ),
{
    lemma_ten_has_a_logarithm(k, value, m);
    let part = k.over(hz, k.num(700));
    let number = k.plus(k.num(1), part);
    assert(value(k.num(700)) == 700 as real);
    assert(value(number) == 1 as real + value(hz) / 700 as real);
    let top = k.times(k.num(2595), k.log(number));
    assert(value(k.num(2595)) == 2595 as real);
    assert(value(top) == 2595 as real * (m.ln)(1 as real + value(hz) / 700 as real));
    lemma_over_times(value(top), (m.ln)(10 as real));
}

/// The frequency that stands at a place of the mel scale.
proof fn lemma_hz_value<T, K: Analysis<T>>(
    k: K,
    value: spec_fn(T) -> real,
    m: Reals,
    mel: T,
    hz: real,
)
    requires
        faithful_analysis(k, value, m),
        hz > -(700 as real),
        value(mel) * (m.ln)(10 as real) == 2595 as real * (m.ln)(1 as real + hz / 700 as real),
    ensures
        value(hz_of(k, mel)) == hz,
{
    let x = 1 as real + hz / 700 as real;
    let l = (m.ln)(10 as real);
    let lx = (m.ln)(x);
    let e = k.over(mel, k.num(2595));
    assert(value(k.num(2595)) == 2595 as real);
    let ve = value(e);
    let vm = value(mel);
    assert(ve == vm / 2595 as real);
    assert(vm == ve * 2595 as real);
    let p = k.raised(k.num(10), e);
    assert(value(k.num(10)) == 10 as real);
    assert(power_grows(k, value, m, k.num(10), e));
    assert((m.ln)(value(p)) == ve * l);
    assert(ve * l == lx) by (nonlinear_arith)
        requires
            vm == ve * 2595 as real,
            vm * l == 2595 as real * lx,
    ;
    assert(ln_rises(m, value(p), x));
    assert(ln_rises(m, x, value(p)));
    assert(value(p) == x);
    assert(value(k.num(700)) == 700 as real && value(k.num(1)) == 1 as real);
    assert(value(hz_of(k, mel)) == 700 as real * (x - 1 as real));
}

/// Without rounding, a frequency that is brought to the mel scale and back is the same
/// again.
pub proof fn law_mel_scale_there_and_back<T, K: Analysis<T>>(
    k: K,
    value: spec_fn(T) -> real,
    m: Reals,
    hz: T,
)
    requires
        faithful_analysis(k, value, m),
        value(hz) > -(700 as real),
    ensures
        value(hz_of(k, mel_of(k, hz))) == value(hz),
{
    lemma_mel_value(k, value, m, hz);
    lemma_hz_value(k, value, m, mel_of(k, hz), value(hz));
}

/// Without rounding, 6300 Hz, where `1 + hz / 700` is ten, is 2595 mel.
pub proof fn law_mel_scale_is_anchored<T, K: Analysis<T>>(
    k: K,
    value: spec_fn(T) -> real,
    m: Reals,
    hz: T,
)
    requires
        faithful_analysis(k, value, m),
        value(hz) == 6300 as real,
    ensures
        value(mel_of(k, hz)) == 2595 as real,
{
    lemma_ten_has_a_logarithm(k, value, m);
    lemma_mel_value(k, value, m, hz);
    assert(1 as real + value(hz) / 700 as real == 10 as real);
    lemma_cancel(value(mel_of(k, hz)), 2595 as real, (m.ln)(10 as real));
}

/// The place on the mel scale that lies `i` of `bands + 1` equal steps on the way from
/// `low` to `high`.
pub open spec fn step_between<T, K: Arithmetic<T>>(k: K, low: T, high: T, i: nat, bands: nat) -> T {
    k.plus(
        low,
        k.over(k.times(k.minus(high, low), k.num(i as u64)), k.num((bands + 1) as u64)),
    )
}

/// The bin of a frequency in a transform of `n` points at a sample rate, the fraction left
/// off.
pub open spec fn bin_of<T, K: Arithmetic<T>>(k: K, hz: T, sample_rate: u32, n: nat) -> usize {
    k.whole(k.times(k.over(hz, k.num(sample_rate as u64)), k.num(n as u64)))
}

/// At every sample rate, edge `i` of the mel bands is the bin at that rate of the frequency
/// that lies `i` of `bands + 1` equal steps of the mel scale on the way from 80 Hz to half
/// the sample rate.
pub proof fn law_edges_are_the_bins_of_their_frequencies<T, K: Analysis<T>>(
    k: K,
    sample_rate: u32,
    n: nat,
    bands: nat,
    i: nat,
    half: T,
    hz: T,
)
    requires
        half == k.over(k.num(sample_rate as u64), k.num(2)),
        hz == hz_of(
            k,
            step_between(k, mel_of(k, k.num(80)), mel_of(k, half), i, bands),
        ),
    ensures
        mel_edge::<T, K>(k, sample_rate, n, bands, i) == bin_of(k, hz, sample_rate, n),
{
}

/// At every sample rate the mel bands begin at the bin of 80 Hz and end in the middle of
/// the transform, which is the bin of half the rate, where the arithmetic does not round
/// on the way: no step is none, all steps are all the way, the mel scale is undone, and
/// half the rate, divided by the rate, is half of the points.
pub proof fn law_bands_reach_to_half_the_rate<T, K: Analysis<T>>(
    k: K,
    sample_rate: u32,
    n: nat,
    bands: nat,
    half: T,
)
    requires
        half == k.over(k.num(sample_rate as u64), k.num(2)),
        ({
            let low = mel_of(k, k.num(80));
            let high = mel_of(k, half);
            &&& step_between(k, low, high, 0, bands) == low
            &&& step_between(k, low, high, bands + 1, bands) == high
            &&& hz_of(k, low) == k.num(80)
            &&& hz_of(k, high) == half
        }),
        k.whole(k.times(k.over(half, k.num(sample_rate as u64)), k.num(n as u64))) == n / 2,
    ensures
        mel_edge::<T, K>(k, sample_rate, n, bands, 0) == bin_of(k, k.num(80), sample_rate, n),
        mel_edge::<T, K>(k, sample_rate, n, bands, bands + 1) == n / 2,
{
}

// ---------------------------------------------------------------------------
// Bands
// ---------------------------------------------------------------------------

/// Edges that lie in order inside the spectrum, off the constant bin, are those of the
/// triangle; and whatever the edges, a triangle with any bins at all lies so.
pub proof fn law_triangles_keep_to_their_edges(left: usize, center: usize, right: usize, len: nat)
    requires
        1 <= len <= usize::MAX,
    ensures
        ({
            let t = triangle(left, center, right, len);
            &&& 1 <= left <= center <= right < len ==> t.left == left && t.center == center
                && t.right == right
            &&& 1 <= t.left && t.right < len
            &&& left >= 1 ==> t.left == left
            &&& right < len ==> t.right == right
            &&& right >= len ==> t.right == len - 1
            &&& t.left <= t.right ==> t.left <= t.center <= t.right
        }),
{
}

/// Without rounding, the weight of a triangle rises in equal steps from 0 at its left end to
/// 1 at its peak, and falls in equal steps to 0 at its right end; a side without width has
/// the weight 1.
pub proof fn law_weights_rise_and_fall_evenly<T, K: Arithmetic<T>>(
    k: K,
    value: spec_fn(T) -> real,
    t: Triangle,
    j: int,
)
    requires
        faithful(k, value),
        t.left <= t.center <= t.right,
        t.left <= j <= t.right,
    ensures
        j <= t.center && t.left < t.center ==> value(weight(k, t, j)) * (t.center - t.left) as real
            == (j - t.left) as real,
        j > t.center ==> value(weight(k, t, j)) * (t.right - t.center) as real == (t.right
            - j) as real,
        j == t.center ==> value(weight(k, t, j)) == 1 as real,
{
    if j <= t.center && t.left < t.center {
        let a = k.num((j - t.left) as u64);
        let b = k.num((t.center - t.left) as u64);
        assert(value(a) == (j - t.left) as real && value(b) == (t.center - t.left) as real);
        lemma_over_times(value(a), value(b));
        if j == t.center {
            lemma_cancel(value(weight(k, t, j)), 1 as real, value(b));
        }
    } else if j > t.center {
        let a = k.num((t.right - j) as u64);
        let b = k.num((t.right - t.center) as u64);
        assert(value(a) == (t.right - j) as real && value(b) == (t.right - t.center) as real);
        lemma_over_times(value(a), value(b));
    }
}

/// The weights of the bins under a triangle.
pub open spec fn weights<T, K: Arithmetic<T>>(k: K, t: Triangle) -> Seq<T> {
    Seq::new((t.right - t.left + 1) as nat, |d: int| weight(k, t, t.left + d))
}

/// Every bin from the left end of a triangle to its right end adds its power times its
/// weight to the energy of the band, and no other bin does.
pub proof fn law_a_band_adds_up_its_bins<T, K: Arithmetic<T>>(k: K, power: Seq<T>, t: Triangle)
    requires
        t.left <= t.right < power.len(),
    ensures
        total(k, weighted_bins(k, power, t)) == inner_product(
            k,
            power.subrange(t.left as int, t.right + 1),
            weights(k, t),
        ),
{
    assert(weighted_bins(k, power, t) =~= products(
        k,
        power.subrange(t.left as int, t.right + 1),
        weights(k, t),
    ));
}

/// The level of a band hears only what lies between its own edges: spectra that agree on the
/// bins from edge `i` to edge `i + 2` give the same level to band `i`, at every sample rate.
pub proof fn law_a_band_hears_between_its_edges<T, K: Analysis<T>>(
    k: K,
    a: Seq<(T, T)>,
    b: Seq<(T, T)>,
    sample_rate: u32,
    bands: nat,
    i: int,
)
    requires
        0 <= i < bands,
        1 <= a.len() <= usize::MAX,
        a.len() == b.len(),
        forall|j: int|
            0 <= j < a.len() && mel_edge::<T, K>(k, sample_rate, a.len(), bands, i as nat) <= j
                <= mel_edge::<T, K>(k, sample_rate, a.len(), bands, (i + 2) as nat)
                ==> #[trigger] a[j] == b[j],
    ensures
        mel_levels(k, a, sample_rate, bands)[i] == mel_levels(k, b, sample_rate, bands)[i],
{
    let n = a.len();
    let left = mel_edge::<T, K>(k, sample_rate, n, bands, i as nat);
    let center = mel_edge::<T, K>(k, sample_rate, n, bands, (i + 1) as nat);
    let right = mel_edge::<T, K>(k, sample_rate, n, bands, (i + 2) as nat);
    let t = triangle(left, center, right, n / 2 + 1);
    let pa = power_spectrum(k, a);
    let pb = power_spectrum(k, b);
    assert forall|j: int| t.left <= j <= t.right implies pa[j] == pb[j] by {
        assert(a[j] == b[j]);
    }
    assert(weighted_bins(k, pa, t) =~= weighted_bins(k, pb, t));
}

/// The level of a band is the logarithm of its energy, of which next to none is counted as
/// a fixed least: of the power of each bin between its edges at the sample rate, times the
/// weight of the triangle over the three edges.
pub proof fn law_levels_are_those_of_the_bands<T, K: Analysis<T>>(
    k: K,
    bins: Seq<(T, T)>,
    sample_rate: u32,
    bands: nat,
    i: int,
    t: Triangle,
)
    requires
        0 <= i < bands,
        1 <= bins.len() <= usize::MAX,
        t.left == mel_edge::<T, K>(k, sample_rate, bins.len(), bands, i as nat),
        t.center == mel_edge::<T, K>(k, sample_rate, bins.len(), bands, (i + 1) as nat),
        t.right == mel_edge::<T, K>(k, sample_rate, bins.len(), bands, (i + 2) as nat),
        1 <= t.left <= t.center <= t.right <= bins.len() / 2,
    ensures
        ({
            let powers = power_spectrum(k, bins).subrange(t.left as int, t.right + 1);
            let energy = inner_product(k, powers, weights(k, t));
            let least = k.over(k.num(1), k.num(10_000_000_000));
            &&& mel_levels(k, bins, sample_rate, bands).len() == bands
            &&& k.below(least, energy) ==> mel_levels(k, bins, sample_rate, bands)[i] == k.log(
                energy,
            )
            &&& k.reaches(least, least) && !k.below(least, energy) ==> mel_levels(
                k,
                bins,
                sample_rate,
                bands,
            )[i] == k.log(least)
        }),
{
    let power = power_spectrum(k, bins);
    law_triangles_keep_to_their_edges(t.left, t.center, t.right, power.len());
    assert(triangle(t.left, t.center, t.right, power.len()) == t);
    law_a_band_adds_up_its_bins(k, power, t);
}

/// Without rounding, a vector is scaled to length 1: each of its values is its old value
/// divided by the old length, whose square is the sum of the squares; a vector with next to
/// no length becomes 0.
pub proof fn law_vectors_are_scaled_by_their_length<T, K: Analysis<T>>(
    k: K,
    value: spec_fn(T) -> real,
    m: Reals,
    v: Seq<T>,
    i: int,
)
    requires
        faithful_analysis(k, value, m),
        0 <= i < v.len(),
    ensures
        ({
            let unit = unit_vector(k, v);
            let length = value(k.root(energy(k, v)));
            &&& unit.len() == v.len()
            &&& length >= 0 as real
            &&& length * length == product_sum(value, v, v)
            &&& length >= 1 as real / 10_000_000_000 as real ==> value(unit[i]) * length == value(
                v[i],
            )
            &&& length < 1 as real / 10_000_000_000 as real ==> value(unit[i]) == 0 as real
        }),
{
    lemma_inner_product_value(k, value, v, v);
    lemma_squares_sum_up(value, v);
    assert(root_squares(k, value, energy(k, v)));
    let length = value(k.root(energy(k, v)));
    assert(value(k.num(1)) == 1 as real && value(k.num(10_000_000_000)) == 10_000_000_000 as real);
    assert(value(negligible(k)) == 1 as real / 10_000_000_000 as real);
    assert(value(k.num(0)) == 0 as real);
    if length >= 1 as real / 10_000_000_000 as real {
        lemma_over_times(value(v[i]), length);
    }
}

/// The mel features of a frame are the levels of the bands of its own transform, at the
/// sample rate and with the number of bands that were asked for, scaled to length 1.
pub proof fn law_mel_features_are_scaled_levels<T, K: Analysis<T>>(
    k: K,
    frame: Seq<T>,
    sample_rate: u32,
    bands: nat,
    i: int,
)
    requires
        0 <= i < bands,
    ensures
        ({
            let levels = mel_levels(k, k.spectrum(frame), sample_rate, bands);
            let length = k.root(energy(k, levels));
            &&& mel_spectrum(k, frame, sample_rate, bands).len() == bands
            &&& !k.below(length, k.over(k.num(1), k.num(10_000_000_000))) ==> mel_spectrum(
                k,
                frame,
                sample_rate,
                bands,
            )[i] == k.over(levels[i], length)
        }),
{
}

// ---------------------------------------------------------------------------
// Modes
// ---------------------------------------------------------------------------

/// The mode without a transform looks at the shares of the quarters of a frame, and the
/// others at 32 mel bands at the sample rate of the stream: one of them of the frame as it
/// is, where a product with 1 changes no sample, and one of the frame behind a Hann window.
pub proof fn law_modes_look_at_their_features<T, K: Analysis<T>>(
    k: K,
    sample_rate: u32,
    frame: Seq<T>,
)
    requires
        forall|i: int|
            0 <= i < frame.len() ==> k.times(#[trigger] frame[i], k.num(1)) == frame[i],
    ensures
        features_of(
            k,
            ProcessingMode::Performance,
            sample_rate,
            window_of(k, ProcessingMode::Performance, frame.len()),
            frame,
        ) == subband_shares(k, frame),
        features_of(
            k,
            ProcessingMode::Balanced,
            sample_rate,
            window_of(k, ProcessingMode::Balanced, frame.len()),
            frame,
        ) == mel_spectrum(k, frame, sample_rate, 32),
        features_of(
            k,
            ProcessingMode::Deep,
            sample_rate,
            window_of(k, ProcessingMode::Deep, frame.len()),
            frame,
        ) == mel_spectrum(k, products(k, frame, hann(k, frame.len())), sample_rate, 32),
{
    let ones = window_of(k, ProcessingMode::Balanced, frame.len());
    assert(products(k, frame, ones) =~= frame);
}

/// Without rounding, the Hann window is a raised cosine over one turn: twice the weight and
/// the cosine make 1 everywhere.  So it starts at 0 and stays between 0 and 1.
pub proof fn law_the_window_is_a_raised_cosine<T, K: Analysis<T>>(
    k: K,
    value: spec_fn(T) -> real,
    m: Reals,
    n: nat,
    i: int,
)
    requires
        faithful_analysis(k, value, m),
        0 <= i < n <= u64::MAX,
    ensures
        ({
            let angle = value(
                k.over(
                    k.times(k.times(k.num(2), k.half_turn()), k.num(i as u64)),
                    k.num(n as u64),
                ),
            );
            &&& hann(k, n).len() == n
            &&& angle * n as real == (2 as real * m.pi) * i as real
            &&& 2 as real * value(hann(k, n)[i]) + (m.cos)(angle) == 1 as real
            &&& 0 as real <= value(hann(k, n)[i]) <= 1 as real
        }),
{
    let turn = k.times(k.num(2), k.half_turn());
    let along = k.times(turn, k.num(i as u64));
    let angle = k.over(along, k.num(n as u64));
    let half = k.over(k.num(1), k.num(2));
    let rest = k.minus(k.num(1), k.cosine(angle));
    assert(value(k.num(2)) == 2 as real && value(k.num(1)) == 1 as real);
    assert(value(k.num(n as u64)) == n as real && value(k.num(i as u64)) == i as real);
    assert(value(turn) == 2 as real * m.pi);
    assert(value(along) == (2 as real * m.pi) * i as real);
    lemma_over_times(value(along), n as real);
    let h = value(half);
    let r = value(rest);
    assert(h == 1 as real / 2 as real);
    assert(h * r * 2 as real == r) by (nonlinear_arith)
        requires
            h == 1 as real / 2 as real,
    ;
    assert(value(hann(k, n)[i]) == h * r);
    assert(cos_turns(m, value(angle)));
}

} // verus!
