//! What a frame sounds like: the features that voices are compared by.

use vstd::prelude::*;
use vstd::slice::slice_subrange;

use crate::arithmetic::{dot, maximum, thousandths, Analysis, Arithmetic};
#[allow(unused_imports)]
use crate::arithmetic::{energy, exact, exact_analysis, inner_product, larger, per_mille, products, total};
use crate::mode::ProcessingMode;

verus! {

/// The number of mel bands of a feature vector.
pub const MEL_BANDS: usize = 32;

/// The value below which an energy or a norm counts as nothing.
pub open spec fn negligible<T, K: Arithmetic<T>>(k: K) -> T {
    k.over(k.num(1), k.num(10_000_000_000))
}

pub(crate) fn negligible_value<T, K: Arithmetic<T>>(k: &K) -> (r: T)
    requires
        exact::<T, K>(*k),
    ensures
        r == negligible::<T, K>(*k),
{
    let one = k.number(1);
    let scale = k.number(10_000_000_000);
    k.quotient(one, scale)
}

// ---------------------------------------------------------------------------
// Loudness
// ---------------------------------------------------------------------------

/// The root mean square of a frame.
pub open spec fn rms<T, K: Analysis<T>>(k: K, frame: Seq<T>) -> T {
    k.root(k.over(energy(k, frame), k.num(frame.len() as u64)))
}

/// The noise gate: a frame whose root mean square is below a thousandth.
pub open spec fn silent<T, K: Analysis<T>>(k: K, frame: Seq<T>) -> bool {
    k.below(rms(k, frame), per_mille(k, 1))
}

/// The root mean square of a frame.
pub fn frame_rms<T: Copy, K: Analysis<T>>(k: &K, frame: &[T]) -> (r: T)
    requires
        exact_analysis::<T, K>(*k),
    ensures
        r == rms(*k, frame@),
{
    let sum = dot(k, frame, frame);
    let count = k.number(frame.len() as u64);
    k.sqrt(k.quotient(sum, count))
}

/// Whether a frame is too quiet to be looked at.
pub fn is_silent<T: Copy, K: Analysis<T>>(k: &K, frame: &[T]) -> (r: bool)
    requires
        exact_analysis::<T, K>(*k),
    ensures
        r == silent(*k, frame@),
{
    let level = frame_rms(k, frame);
    let gate = thousandths(k, 1);
    k.less(level, gate)
}

// ---------------------------------------------------------------------------
// Sub-band energies
// ---------------------------------------------------------------------------

/// The energies of the four quarters of a frame.
pub open spec fn quarter_energies<T, K: Arithmetic<T>>(k: K, frame: Seq<T>) -> Seq<T> {
    let n = frame.len() as int;
    seq![
        energy(k, frame.subrange(0, n / 4)),
        energy(k, frame.subrange(n / 4, n / 2)),
        energy(k, frame.subrange(n / 2, 3 * n / 4)),
        energy(k, frame.subrange(3 * n / 4, n)),
    ]
}

/// The energy of a frame, added up from its quarters.
pub open spec fn whole_energy<T, K: Arithmetic<T>>(k: K, frame: Seq<T>) -> T {
    let e = quarter_energies(k, frame);
    k.plus(k.plus(k.plus(e[0], e[1]), e[2]), e[3])
}

/// The energy of each quarter of a frame as a share of the whole, and equal
/// shares where the frame has next to none.
pub open spec fn subband_shares<T, K: Arithmetic<T>>(k: K, frame: Seq<T>) -> Seq<T> {
    let all = whole_energy(k, frame);
    if k.below(all, negligible(k)) {
        Seq::new(4, |i: int| k.over(k.num(1), k.num(4)))
    } else {
        Seq::new(4, |i: int| k.over(quarter_energies(k, frame)[i], all))
    }
}

/// The features of the mode without a transform: the shares of the four
/// quarters of the frame in its energy.
pub fn extract_subband_energy<T: Copy, K: Arithmetic<T>>(k: &K, frame: &[T]) -> (r: Vec<T>)
    requires
        exact::<T, K>(*k),
    ensures
        r@ == subband_shares(*k, frame@),
        r@.len() == 4,
{
    let n: usize = frame.len();
    let band1_end: usize = n / 4;
    let band2_end: usize = n / 2;
    // Three quarters of `n`, without the product that may not fit.
    let band3_end: usize = if n % 4 == 0 {
        n - n / 4
    } else {
        n - n / 4 - 1
    };

    let band1 = slice_subrange(frame, 0, band1_end);
    let band2 = slice_subrange(frame, band1_end, band2_end);
    let band3 = slice_subrange(frame, band2_end, band3_end);
    let band4 = slice_subrange(frame, band3_end, n);
    let e1 = dot(k, band1, band1);
    let e2 = dot(k, band2, band2);
    let e3 = dot(k, band3, band3);
    let e4 = dot(k, band4, band4);

    let all = k.sum(k.sum(k.sum(e1, e2), e3), e4);
    let mut shares: Vec<T> = Vec::new();
    if k.less(all, negligible_value(k)) {
        let one = k.number(1);
        let four = k.number(4);
        let quarter = k.quotient(one, four);
        shares.push(quarter);
        shares.push(quarter);
        shares.push(quarter);
        shares.push(quarter);
    } else {
        shares.push(k.quotient(e1, all));
        shares.push(k.quotient(e2, all));
        shares.push(k.quotient(e3, all));
        shares.push(k.quotient(e4, all));
    }
    assert(shares@ =~= subband_shares(*k, frame@));
    shares
}

// ---------------------------------------------------------------------------
// The mel scale
// ---------------------------------------------------------------------------

/// A frequency in hertz on the mel scale.
pub open spec fn mel_of<T, K: Analysis<T>>(k: K, hz: T) -> T {
    k.over(
        k.times(k.num(2595), k.log(k.plus(k.num(1), k.over(hz, k.num(700))))),
        k.log_ten(),
    )
}

/// A frequency on the mel scale in hertz.
pub open spec fn hz_of<T, K: Analysis<T>>(k: K, mel: T) -> T {
    k.times(k.num(700), k.minus(k.raised(k.num(10), k.over(mel, k.num(2595))), k.num(1)))
}

/// Hertz to mel.
pub fn hz_to_mel<T: Copy, K: Analysis<T>>(k: &K, hz: T) -> (r: T)
    requires
        exact_analysis::<T, K>(*k),
    ensures
        r == mel_of(*k, hz),
{
    let scale = k.number(2595);
    let one = k.number(1);
    let corner = k.number(700);
    let octave = k.ln(k.sum(one, k.quotient(hz, corner)));
    k.quotient(k.product(scale, octave), k.ln_10())
}

/// Mel to hertz.
pub fn mel_to_hz<T: Copy, K: Analysis<T>>(k: &K, mel: T) -> (r: T)
    requires
        exact_analysis::<T, K>(*k),
    ensures
        r == hz_of(*k, mel),
{
    let corner = k.number(700);
    let ten = k.number(10);
    let scale = k.number(2595);
    let one = k.number(1);
    let ratio = k.power(ten, k.quotient(mel, scale));
    k.product(corner, k.difference(ratio, one))
}

/// The bin of an `n`-point transform at edge `i` of `bands` mel bands, whose
/// edges lie at equal distances on the mel scale from 80 Hz to half the sample
/// rate.
pub open spec fn mel_edge<T, K: Analysis<T>>(
    k: K,
    sample_rate: u32,
    n: nat,
    bands: nat,
    i: nat,
) -> usize {
    let low = mel_of(k, k.num(80));
    let high = mel_of(k, k.over(k.num(sample_rate as u64), k.num(2)));
    let mel = k.plus(
        low,
        k.over(k.times(k.minus(high, low), k.num(i as u64)), k.num((bands + 1) as u64)),
    );
    k.whole(k.times(k.over(hz_of(k, mel), k.num(sample_rate as u64)), k.num(n as u64)))
}

/// The edges of all mel bands.
pub fn mel_edges<T: Copy, K: Analysis<T>>(
    k: &K,
    sample_rate: u32,
    n: usize,
    bands: usize,
) -> (r: Vec<usize>)
    requires
        exact_analysis::<T, K>(*k),
        bands + 2 <= usize::MAX,
    ensures
        r@.len() == bands + 2,
        forall|i: int|
            0 <= i < bands + 2 ==> #[trigger] r@[i] == mel_edge::<T, K>(
                *k,
                sample_rate,
                n as nat,
                bands as nat,
                i as nat,
            ),
{
    let rate = k.number(sample_rate as u64);
    let two = k.number(2);
    let low = hz_to_mel(k, k.number(80));
    let high = hz_to_mel(k, k.quotient(rate, two));
    let span = k.difference(high, low);
    let steps = k.number((bands + 1) as u64);
    let points = k.number(n as u64);

    let mut edges: Vec<usize> = Vec::new();
    let mut i: usize = 0;
    while i < bands + 2
        invariant
            exact_analysis::<T, K>(*k),
            bands + 2 <= usize::MAX,
            i <= bands + 2,
            rate == k.num(sample_rate as u64),
            low == mel_of(*k, k.num(80)),
            high == mel_of(*k, k.over(rate, k.num(2))),
            span == k.minus(high, low),
            steps == k.num((bands + 1) as u64),
            points == k.num(n as u64),
            edges@.len() == i,
            forall|j: int|
                0 <= j < i ==> #[trigger] edges@[j] == mel_edge::<T, K>(
                    *k,
                    sample_rate,
                    n as nat,
                    bands as nat,
                    j as nat,
                ),
        decreases bands + 2 - i,
    {
        let place = k.number(i as u64);
        let mel = k.sum(low, k.quotient(k.product(span, place), steps));
        let hz = mel_to_hz(k, mel);
        let bin: usize = k.truncate(k.product(k.quotient(hz, rate), points));
        edges.push(bin);
        i += 1;
    }
    edges
}

// ---------------------------------------------------------------------------
// The mel filter bank
// ---------------------------------------------------------------------------

/// A triangular filter over the bins `left ..= right` with its peak at
/// `center`.
pub struct Triangle {
    pub left: usize,
    pub center: usize,
    pub right: usize,
}

/// The triangle over three edges, kept off the constant bin and inside a
/// spectrum of `len` bins.
pub open spec fn triangle(left: usize, center: usize, right: usize, len: nat) -> Triangle {
    let l = if left < 1 {
        1
    } else {
        left
    };
    let r = if right > len - 1 {
        (len - 1) as usize
    } else {
        right
    };
    let c = if center < l {
        l
    } else {
        center
    };
    let c = if c > r {
        r
    } else {
        c
    };
    Triangle { left: l, center: c, right: r }
}

/// The weight of bin `j`: it rises from `left` to the peak and falls to
/// `right`, and is 1 on a side without width.
pub open spec fn weight<T, K: Arithmetic<T>>(k: K, t: Triangle, j: int) -> T {
    if j <= t.center && t.center > t.left {
        k.over(k.num((j - t.left) as u64), k.num((t.center - t.left) as u64))
    } else if j > t.center && t.right > t.center {
        k.over(k.num((t.right - j) as u64), k.num((t.right - t.center) as u64))
    } else {
        k.num(1)
    }
}

/// The weighted bins under a triangle.
pub open spec fn weighted_bins<T, K: Arithmetic<T>>(k: K, power: Seq<T>, t: Triangle) -> Seq<T> {
    Seq::new(
        (if t.left <= t.right {
            t.right - t.left + 1
        } else {
            0
        }) as nat,
        |d: int| k.times(power[t.left + d], weight(k, t, t.left + d)),
    )
}

/// The triangle over three edges, inside a spectrum of `len` bins.
pub fn clamp_triangle(left: usize, center: usize, right: usize, len: usize) -> (r: Triangle)
    requires
        len >= 1,
    ensures
        r == triangle(left, center, right, len as nat),
        r.left >= 1,
        r.right < len,
        r.left <= r.right ==> r.left <= r.center <= r.right,
{
    let l: usize = if left < 1 {
        1
    } else {
        left
    };
    let r: usize = if right > len - 1 {
        len - 1
    } else {
        right
    };
    let c: usize = if center < l {
        l
    } else {
        center
    };
    let c: usize = if c > r {
        r
    } else {
        c
    };
    Triangle { left: l, center: c, right: r }
}

/// The energy of a power spectrum under a triangle.
pub fn band_energy<T: Copy, K: Arithmetic<T>>(k: &K, power: &Vec<T>, t: &Triangle) -> (r: T)
    requires
        exact::<T, K>(*k),
        t.right < power@.len(),
        t.left <= t.right ==> t.left <= t.center <= t.right,
    ensures
        r == total(*k, weighted_bins(*k, power@, *t)),
{
    let mut acc = k.number(0);
    let ghost terms = weighted_bins(*k, power@, *t);
    assert(terms.take(0) =~= Seq::empty());
    let mut j: usize = t.left;
    while j <= t.right
        invariant
            exact::<T, K>(*k),
            t.right < power.len() <= usize::MAX,
            t.left <= t.right ==> t.left <= t.center <= t.right,
            t.left <= j,
            j <= t.right + 1 || j == t.left,
            terms == weighted_bins(*k, power@, *t),
            acc == total(*k, terms.take(j - t.left)),
        decreases t.right + 1 - j,
    {
        let w = if j <= t.center && t.center > t.left {
            k.quotient(k.number((j - t.left) as u64), k.number((t.center - t.left) as u64))
        } else if j > t.center && t.right > t.center {
            k.quotient(k.number((t.right - j) as u64), k.number((t.right - t.center) as u64))
        } else {
            k.number(1)
        };
        assert(w == weight(*k, *t, j as int));
        assert(terms.take(j - t.left + 1).drop_last() =~= terms.take(j - t.left));
        acc = k.sum(acc, k.product(power[j], w));
        j += 1;
    }
    assert(terms.take(j - t.left) =~= terms);
    acc
}

// ---------------------------------------------------------------------------
// The mel spectrum
// ---------------------------------------------------------------------------

/// The power of the lower half of a spectrum of `n` bins.
pub open spec fn power_spectrum<T, K: Arithmetic<T>>(k: K, bins: Seq<(T, T)>) -> Seq<T> {
    Seq::new(
        bins.len() / 2 + 1,
        |j: int|
            k.over(
                k.plus(k.times(bins[j].0, bins[j].0), k.times(bins[j].1, bins[j].1)),
                k.num(bins.len() as u64),
            ),
    )
}

/// The logarithm of the energy of band `i`.
pub open spec fn mel_level<T, K: Analysis<T>>(
    k: K,
    power: Seq<T>,
    edges: Seq<usize>,
    i: int,
) -> T {
    let t = triangle(edges[i], edges[i + 1], edges[i + 2], power.len());
    k.log(larger(k, negligible(k), total(k, weighted_bins(k, power, t))))
}

/// The levels of all bands.
pub open spec fn mel_levels<T, K: Analysis<T>>(
    k: K,
    bins: Seq<(T, T)>,
    sample_rate: u32,
    bands: nat,
) -> Seq<T> {
    let power = power_spectrum(k, bins);
    let edges = Seq::new(
        bands + 2,
        |i: int| mel_edge::<T, K>(k, sample_rate, bins.len(), bands, i as nat),
    );
    Seq::new(bands, |i: int| mel_level(k, power, edges, i))
}

/// A vector divided by its length, and zeros where it has next to none.
pub open spec fn unit_vector<T, K: Analysis<T>>(k: K, v: Seq<T>) -> Seq<T> {
    let norm = k.root(energy(k, v));
    if k.below(norm, negligible(k)) {
        Seq::new(v.len(), |i: int| k.num(0))
    } else {
        Seq::new(v.len(), |i: int| k.over(v[i], norm))
    }
}

/// The mel features of a frame.
pub open spec fn mel_spectrum<T, K: Analysis<T>>(
    k: K,
    frame: Seq<T>,
    sample_rate: u32,
    bands: nat,
) -> Seq<T> {
    unit_vector(k, mel_levels(k, k.spectrum(frame), sample_rate, bands))
}

/// The power of the lower half of a spectrum.
pub fn spectrum_power<T: Copy, K: Arithmetic<T>>(k: &K, bins: &Vec<(T, T)>) -> (r: Vec<T>)
    requires
        exact::<T, K>(*k),
        bins@.len() >= 1,
    ensures
        r@ == power_spectrum(*k, bins@),
{
    let count = k.number(bins.len() as u64);
    let half: usize = bins.len() / 2 + 1;
    let mut power: Vec<T> = Vec::new();
    let mut j: usize = 0;
    while j < half
        invariant
            exact::<T, K>(*k),
            bins@.len() >= 1,
            half == bins@.len() / 2 + 1,
            j <= half,
            count == k.num(bins@.len() as u64),
            power@ =~= power_spectrum(*k, bins@).take(j as int),
        decreases half - j,
    {
        let re = bins[j].0;
        let im = bins[j].1;
        let square = k.sum(k.product(re, re), k.product(im, im));
        power.push(k.quotient(square, count));
        j += 1;
    }
    power
}

/// A vector scaled to length one.
pub fn normalize<T: Copy, K: Analysis<T>>(k: &K, v: &Vec<T>) -> (r: Vec<T>)
    requires
        exact_analysis::<T, K>(*k),
    ensures
        r@ == unit_vector(*k, v@),
{
    let norm = k.sqrt(dot(k, v.as_slice(), v.as_slice()));
    let empty = k.less(norm, negligible_value(k));
    let mut unit: Vec<T> = Vec::new();
    let mut i: usize = 0;
    while i < v.len()
        invariant
            exact_analysis::<T, K>(*k),
            i <= v@.len(),
            norm == k.root(energy(*k, v@)),
            empty == k.below(norm, negligible(*k)),
            unit@ =~= unit_vector(*k, v@).take(i as int),
        decreases v@.len() - i,
    {
        if empty {
            unit.push(k.number(0));
        } else {
            unit.push(k.quotient(v[i], norm));
        }
        i += 1;
    }
    unit
}

/// The levels of the mel bands of a spectrum.
pub fn mel_band_levels<T: Copy, K: Analysis<T>>(
    k: &K,
    bins: &Vec<(T, T)>,
    sample_rate: u32,
    bands: usize,
) -> (r: Vec<T>)
    requires
        exact_analysis::<T, K>(*k),
        bins@.len() >= 1,
        bands + 2 <= usize::MAX,
    ensures
        r@ == mel_levels(*k, bins@, sample_rate, bands as nat),
{
    let power = spectrum_power(k, bins);
    let edges = mel_edges::<T, K>(k, sample_rate, bins.len(), bands);
    let ghost all_edges = Seq::new(
        bands as nat + 2,
        |i: int| mel_edge::<T, K>(*k, sample_rate, bins@.len(), bands as nat, i as nat),
    );
    assert(edges@ =~= all_edges);
    let floor = negligible_value(k);
    let mut levels: Vec<T> = Vec::new();
    let mut i: usize = 0;
    while i < bands
        invariant
            exact_analysis::<T, K>(*k),
            bands + 2 <= usize::MAX,
            i <= bands,
            bins@.len() >= 1,
            power@ == power_spectrum(*k, bins@),
            edges@ == all_edges,
            all_edges == Seq::new(
                bands as nat + 2,
                |i: int| mel_edge::<T, K>(*k, sample_rate, bins@.len(), bands as nat, i as nat),
            ),
            floor == negligible::<T, K>(*k),
            levels@ =~= mel_levels(*k, bins@, sample_rate, bands as nat).take(i as int),
        decreases bands - i,
    {
        let t = clamp_triangle(edges[i], edges[i + 1], edges[i + 2], power.len());
        let band = band_energy(k, &power, &t);
        let level = k.ln(maximum(k, floor, band));
        levels.push(level);
        assert(level == mel_level(*k, power@, all_edges, i as int));
        i += 1;
    }
    levels
}

/// The features of the modes with a transform: the logarithmic levels of the mel
/// bands, scaled to a vector of length one.
pub fn extract_mel_spectrum<T: Copy, K: Analysis<T>>(
    k: &K,
    frame: &Vec<T>,
    sample_rate: u32,
    n_mels: usize,
) -> (r: Vec<T>)
    requires
        exact_analysis::<T, K>(*k),
        frame@.len() >= 1,
        n_mels + 2 <= usize::MAX,
    ensures
        r@ == mel_spectrum(*k, frame@, sample_rate, n_mels as nat),
        r@.len() == n_mels,
{
    let bins = k.transform(frame);
    let levels = mel_band_levels(k, &bins, sample_rate, n_mels);
    normalize(k, &levels)
}

// ---------------------------------------------------------------------------
// Frames to features
// ---------------------------------------------------------------------------

/// The Hann window of `n` points.
pub open spec fn hann<T, K: Analysis<T>>(k: K, n: nat) -> Seq<T> {
    Seq::new(
        n,
        |i: int|
            k.times(
                k.over(k.num(1), k.num(2)),
                k.minus(
                    k.num(1),
                    k.cosine(
                        k.over(
                            k.times(k.times(k.num(2), k.half_turn()), k.num(i as u64)),
                            k.num(n as u64),
                        ),
                    ),
                ),
            ),
    )
}

/// The window of a mode: a Hann window or none.
pub open spec fn window_of<T, K: Analysis<T>>(k: K, mode: ProcessingMode, n: nat) -> Seq<T> {
    if mode.uses_window() {
        hann(k, n)
    } else {
        Seq::new(n, |i: int| k.num(1))
    }
}

/// The features of a frame in a mode.
pub open spec fn features_of<T, K: Analysis<T>>(
    k: K,
    mode: ProcessingMode,
    sample_rate: u32,
    window: Seq<T>,
    frame: Seq<T>,
) -> Seq<T> {
    if mode.uses_fft() {
        mel_spectrum(k, products(k, frame, window), sample_rate, MEL_BANDS as nat)
    } else {
        subband_shares(k, frame)
    }
}

/// The Hann window of `n` points.
pub fn hanning_window<T: Copy, K: Analysis<T>>(k: &K, n: usize) -> (r: Vec<T>)
    requires
        exact_analysis::<T, K>(*k),
    ensures
        r@ == hann(*k, n as nat),
{
    let one = k.number(1);
    let two = k.number(2);
    let half = k.quotient(one, two);
    let turn = k.product(two, k.pi());
    let points = k.number(n as u64);
    let mut window: Vec<T> = Vec::new();
    let mut i: usize = 0;
    while i < n
        invariant
            exact_analysis::<T, K>(*k),
            i <= n,
            one == k.num(1),
            half == k.over(k.num(1), k.num(2)),
            turn == k.times(k.num(2), k.half_turn()),
            points == k.num(n as u64),
            window@ =~= hann(*k, n as nat).take(i as int),
        decreases n - i,
    {
        let place = k.number(i as u64);
        let angle = k.quotient(k.product(turn, place), points);
        let c = k.cos(angle);
        window.push(k.product(half, k.difference(one, c)));
        i += 1;
    }
    window
}

/// The window of a mode.
pub fn mode_window<T: Copy, K: Analysis<T>>(k: &K, mode: ProcessingMode, n: usize) -> (r: Vec<T>)
    requires
        exact_analysis::<T, K>(*k),
    ensures
        r@ == window_of(*k, mode, n as nat),
        r@.len() == n,
{
    if mode.uses_window() {
        hanning_window(k, n)
    } else {
        let one = k.number(1);
        filled(one, n)
    }
}

/// `n` copies of a value.
pub(crate) fn filled<T: Copy>(value: T, n: usize) -> (r: Vec<T>)
    ensures
        r@ == Seq::new(n as nat, |i: int| value),
{
    let mut v: Vec<T> = Vec::new();
    let mut i: usize = 0;
    while i < n
        invariant
            i <= n,
            v@ =~= Seq::new(i as nat, |i: int| value),
        decreases n - i,
    {
        v.push(value);
        i += 1;
    }
    v
}

/// The features of a frame in a mode.
pub fn extract_features<T: Copy, K: Analysis<T>>(
    k: &K,
    mode: ProcessingMode,
    sample_rate: u32,
    window: &Vec<T>,
    frame: &[T],
) -> (r: Vec<T>)
    requires
        exact_analysis::<T, K>(*k),
        frame@.len() >= 1,
        window@.len() == frame@.len(),
    ensures
        r@ == features_of(*k, mode, sample_rate, window@, frame@),
        r@.len() == (if mode.uses_fft() {
            MEL_BANDS
        } else {
            4
        }),
{
    if mode.uses_fft() {
        let mut windowed: Vec<T> = Vec::new();
        let mut i: usize = 0;
        while i < frame.len()
            invariant
                exact_analysis::<T, K>(*k),
                i <= frame@.len(),
                window@.len() == frame@.len(),
                windowed@ =~= products(*k, frame@, window@).take(i as int),
            decreases frame@.len() - i,
        {
            windowed.push(k.product(frame[i], window[i]));
            i += 1;
        }
        assert(windowed@ =~= products(*k, frame@, window@));
        extract_mel_spectrum(k, &windowed, sample_rate, MEL_BANDS)
    } else {
        extract_subband_energy(k, frame)
    }
}

} // verus!
