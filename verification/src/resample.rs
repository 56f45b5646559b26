//! The way of a captured batch from the input device, at its rate, through the
//! signal path, at the rate of the output device.

use vstd::prelude::*;

use crate::arithmetic::{Analysis, Arithmetic, Narrowing};
#[allow(unused_imports)]
use crate::arithmetic::{exact, exact_analysis, exact_narrowing, faithful};
use crate::channels::to_mono;
#[allow(unused_imports)]
use crate::channels::first_channel;
#[allow(unused_imports)]
use crate::framing::MIN_HOP;
use crate::processor::AudioProcessor;
#[allow(unused_imports)]
use crate::processor::{sound, streamed};

verus! {

/// The sample at a place, and silence outside.
pub open spec fn sample_at<T, K: Arithmetic<T>>(k: K, mono: Seq<T>, place: int) -> T {
    if place < mono.len() {
        mono[place]
    } else {
        k.num(0)
    }
}

/// The output rate in units of the input rate.
pub open spec fn rate_ratio<D, W: Arithmetic<D>>(w: W, input_rate: u32, output_rate: u32) -> D {
    w.over(w.num(output_rate as u64), w.num(input_rate as u64))
}

/// Sample `i` of the output: the straight line between the two input samples
/// around its place.
pub open spec fn interpolated<T, D, K: Arithmetic<T>, W: Arithmetic<D> + Narrowing<D, T>>(
    k: K,
    w: W,
    mono: Seq<T>,
    ratio: D,
    i: int,
) -> T {
    let place = w.over(w.num(i as u64), ratio);
    let index = w.whole(place);
    let fraction = w.narrowed(w.minus(place, w.num(index as u64)));
    let s0 = sample_at(k, mono, index as int);
    let s1 = sample_at(k, mono, index + 1);
    k.plus(s0, k.times(k.minus(s1, s0), fraction))
}

/// A batch at the output rate.  Rates that are equal leave it as it is.
pub open spec fn resampled<T, D, K: Arithmetic<T>, W: Arithmetic<D> + Narrowing<D, T>>(
    k: K,
    w: W,
    mono: Seq<T>,
    input_rate: u32,
    output_rate: u32,
) -> Seq<T> {
    if input_rate == output_rate {
        mono
    } else {
        let ratio: D = rate_ratio(w, input_rate, output_rate);
        let len = w.whole(w.times(w.num(mono.len() as u64), ratio));
        Seq::new(len as nat, |i: int| interpolated(k, w, mono, ratio, i))
    }
}

/// Resamples a batch by linear interpolation.
pub fn resample<T: Copy, D: Copy, K: Arithmetic<T>, W: Arithmetic<D> + Narrowing<D, T>>(
    k: &K,
    w: &W,
    mono: Vec<T>,
    input_rate: u32,
    output_rate: u32,
) -> (r: Vec<T>)
    requires
        exact::<T, K>(*k),
        exact::<D, W>(*w),
        exact_narrowing::<D, T, W>(*w),
        input_rate > 0 || input_rate == output_rate,
    ensures
        r@ == resampled::<T, D, K, W>(*k, *w, mono@, input_rate, output_rate),
{
    if input_rate == output_rate {
        return mono;
    }
    let ratio: D = w.quotient(w.number(output_rate as u64), w.number(input_rate as u64));
    let output_len: usize = w.truncate(w.product(w.number(mono.len() as u64), ratio));
    let zero = k.number(0);
    let mut output: Vec<T> = Vec::new();
    let mut i: usize = 0;
    while i < output_len
        invariant
            exact::<T, K>(*k),
            exact::<D, W>(*w),
            exact_narrowing::<D, T, W>(*w),
            i <= output_len,
            input_rate != output_rate,
            ratio == rate_ratio::<D, W>(*w, input_rate, output_rate),
            output_len == w.whole(w.times(w.num(mono@.len() as u64), ratio)),
            zero == k.num(0),
            output@ =~= resampled::<T, D, K, W>(*k, *w, mono@, input_rate, output_rate).take(
                i as int,
            ),
        decreases output_len - i,
    {
        let place: D = w.quotient(w.number(i as u64), ratio);
        let index: usize = w.truncate(place);
        let fraction: T = w.narrow(w.difference(place, w.number(index as u64)));
        let s0 = if index < mono.len() {
            mono[index]
        } else {
            zero
        };
        let s1 = if index < mono.len() && index + 1 < mono.len() {
            mono[index + 1]
        } else {
            zero
        };
        let value = k.sum(s0, k.product(k.difference(s1, s0), fraction));
        assert(value == interpolated::<T, D, K, W>(*k, *w, mono@, ratio, i as int));
        output.push(value);
        i += 1;
    }
    output
}

/// A captured batch of interleaved samples as the signal path takes it: its first
/// channel, at the output rate.
pub fn prepare_input<T: Copy, D: Copy, K: Arithmetic<T>, W: Arithmetic<D> + Narrowing<D, T>>(
    k: &K,
    w: &W,
    data: &[T],
    channels: usize,
    input_rate: u32,
    output_rate: u32,
) -> (r: Vec<T>)
    requires
        exact::<T, K>(*k),
        exact::<D, W>(*w),
        exact_narrowing::<D, T, W>(*w),
        input_rate > 0 || input_rate == output_rate,
    ensures
        r@ == resampled::<T, D, K, W>(
            *k,
            *w,
            first_channel(data@, channels as nat),
            input_rate,
            output_rate,
        ),
{
    let mono = to_mono(data, channels);
    resample::<T, D, K, W>(k, w, mono, input_rate, output_rate)
}

/// The value of the input at a whole place, 0 beyond its end.
pub open spec fn value_at<T>(value: spec_fn(T) -> real, mono: Seq<T>, place: int) -> real {
    if 0 <= place < mono.len() {
        value(mono[place])
    } else {
        0 as real
    }
}

/// A whole part that a value lies at or above, and below the next of, is its own.
proof fn lemma_whole_is_unique(x: real, a: int, b: int)
    requires
        a as real <= x < a as real + 1 as real,
        b as real <= x < b as real + 1 as real,
    ensures
        a == b,
{
    assert((a as real) < b as real + 1 as real);
    assert((b as real) < a as real + 1 as real);
    assert(a < b + 1 && b < a + 1);
}

proof fn lemma_quotients(n: real, input: real, output: real)
    by (nonlinear_arith)
    requires
        input > 0 as real,
        output > 0 as real,
    ensures
        output / input > 0 as real,
        n * (output / input) == n * output / input,
        n / (output / input) == n * input / output,
{
}

/// The place in the input at which an output sample stands.
pub open spec fn place_of(i: int, input_rate: u32, output_rate: u32) -> real {
    i as real * input_rate as real / output_rate as real
}

/// Without rounding, a batch keeps its duration from any rate to any other: it has as
/// many output samples as whole steps of the output rate fit into it.  Output sample `i`
/// stands at place `i * input_rate / output_rate` of the input: it lies on the straight
/// line between the input samples `j` and `j + 1` around that place.
pub proof fn law_samples_keep_their_place<
    T,
    D,
    K: Arithmetic<T>,
    W: Arithmetic<D> + Narrowing<D, T>,
>(
    k: K,
    w: W,
    value: spec_fn(T) -> real,
    wide: spec_fn(D) -> real,
    mono: Seq<T>,
    input_rate: u32,
    output_rate: u32,
    i: int,
    j: int,
)
    requires
        faithful(k, value),
        faithful::<D, W>(w, wide),
        forall|a: D| value(#[trigger] w.narrowed(a)) == wide(a),
        input_rate > 0,
        output_rate > 0,
        mono.len() <= usize::MAX,
        mono.len() as real * output_rate as real / input_rate as real <= usize::MAX as real,
    ensures
        ({
            let out = resampled::<T, D, K, W>(k, w, mono, input_rate, output_rate);
            let steps = mono.len() as real * output_rate as real / input_rate as real;
            let place = place_of(i, input_rate, output_rate);
            let here = value_at(value, mono, j);
            let there = value_at(value, mono, j + 1);
            &&& out.len() as real <= steps < out.len() as real + 1 as real
            &&& 0 <= i < out.len() ==> place < mono.len() as real
            &&& 0 <= i < out.len() && j as real <= place < j as real + 1 as real ==> value(out[i])
                == here + (there - here) * (place - j as real)
        }),
{
    let out = resampled::<T, D, K, W>(k, w, mono, input_rate, output_rate);
    let rin = input_rate as real;
    let rout = output_rate as real;
    let n = mono.len() as real;
    let steps = n * rout / rin;
    let place = place_of(i, input_rate, output_rate);
    lemma_quotients(n, rin, rout);
    lemma_quotients(i as real, rin, rout);
    assert(0 as real <= steps) by (nonlinear_arith)
        requires
            steps == n * rout / rin,
            n >= 0 as real,
            rout > 0 as real,
            rin > 0 as real,
    ;
    if input_rate == output_rate {
        assert(steps == n && place == i as real) by (nonlinear_arith)
            requires
                steps == n * rout / rin,
                place == i as real * rin / rout,
                rin == rout,
                rin > 0 as real,
        ;
        if 0 <= i < out.len() && j as real <= place < j as real + 1 as real {
            lemma_whole_is_unique(place, i, j);
            let here = value_at(value, mono, j);
            let there = value_at(value, mono, j + 1);
            assert((there - here) * (place - j as real) == 0 as real) by (nonlinear_arith)
                requires
                    place == j as real,
            ;
        }
    } else {
        let ratio: D = rate_ratio(w, input_rate, output_rate);
        assert(wide(ratio) == rout / rin);
        assert(wide(w.times(w.num(mono.len() as u64), ratio)) == steps);
        if 0 <= i < out.len() {
            assert(i as real + 1 as real <= steps);
            assert(place < n) by (nonlinear_arith)
                requires
                    place == i as real * rin / rout,
                    i as real + 1 as real <= steps,
                    steps == n * rout / rin,
                    rin > 0 as real,
                    rout > 0 as real,
            ;
            assert(0 as real <= place) by (nonlinear_arith)
                requires
                    place == i as real * rin / rout,
                    i as real >= 0 as real,
                    rin > 0 as real,
                    rout > 0 as real,
            ;
            let at = w.over(w.num(i as u64), ratio);
            assert(wide(at) == place);
            let index = w.whole(at);
            if j as real <= place < j as real + 1 as real {
                lemma_whole_is_unique(place, index as int, j);
                assert(j < mono.len());
                let fraction = w.narrowed(w.minus(at, w.num(index as u64)));
                assert(value(fraction) == place - j as real);
            }
        }
    }
}

/// Without rounding, a batch on a straight line is resampled to the same line: from
/// samples `start + slope * j` come samples `start + slope * place`, wherever both
/// neighbours of the place lie inside the batch.
pub proof fn law_straight_lines_stay_straight<
    T,
    D,
    K: Arithmetic<T>,
    W: Arithmetic<D> + Narrowing<D, T>,
>(
    k: K,
    w: W,
    value: spec_fn(T) -> real,
    wide: spec_fn(D) -> real,
    mono: Seq<T>,
    input_rate: u32,
    output_rate: u32,
    start: real,
    slope: real,
    i: int,
    j: int,
)
    requires
        faithful(k, value),
        faithful::<D, W>(w, wide),
        forall|a: D| value(#[trigger] w.narrowed(a)) == wide(a),
        input_rate > 0,
        output_rate > 0,
        mono.len() <= usize::MAX,
        mono.len() as real * output_rate as real / input_rate as real <= usize::MAX as real,
        forall|m: int|
            0 <= m < mono.len() ==> value(#[trigger] mono[m]) == start + slope * m as real,
        0 <= i < resampled::<T, D, K, W>(k, w, mono, input_rate, output_rate).len(),
        0 <= j < mono.len() - 1,
        j as real <= place_of(i, input_rate, output_rate) < j as real + 1 as real,
    ensures
        value(resampled::<T, D, K, W>(k, w, mono, input_rate, output_rate)[i]) == start + slope
            * place_of(i, input_rate, output_rate),
{
    law_samples_keep_their_place::<T, D, K, W>(
        k,
        w,
        value,
        wide,
        mono,
        input_rate,
        output_rate,
        i,
        j,
    );
    let place = place_of(i, input_rate, output_rate);
    let here = value(mono[j]);
    let there = value(mono[j + 1]);
    let at = j as real;
    assert(here + (there - here) * (place - at) == start + slope * place) by (nonlinear_arith)
        requires
            here == start + slope * at,
            there == start + slope * (at + 1 as real),
    ;
}

/// Takes a captured batch of interleaved samples through the signal path, and
/// returns the chunk to send to the output device, if there is one.
///
/// The frame counter must have room for a batch of any length.
pub fn capture<T: Copy, D: Copy, K: Analysis<T>, W: Arithmetic<D> + Narrowing<D, T>>(
    processor: &mut AudioProcessor<T, K>,
    w: &W,
    data: &[T],
    channels: usize,
    input_rate: u32,
    output_rate: u32,
) -> (r: Option<Vec<T>>)
    requires
        exact_analysis::<T, K>(old(processor).arithmetic()),
        exact::<D, W>(*w),
        exact_narrowing::<D, T, W>(*w),
        input_rate > 0 || input_rate == output_rate,
        sound(old(processor)@),
        old(processor)@.frames + (old(processor)@.frame_size + usize::MAX) / MIN_HOP as int
            <= u64::MAX,
    ensures
        ({
            let batch = resampled::<T, D, K, W>(
                old(processor).arithmetic(),
                *w,
                first_channel(data@, channels as nat),
                input_rate,
                output_rate,
            );
            let (next, out) = streamed(old(processor).arithmetic(), old(processor)@, batch);
            &&& final(processor)@ == next
            &&& match r {
                Some(chunk) => out.len() > 0 && chunk@ == out,
                None => out.len() == 0,
            }
        }),
        sound(final(processor)@),
        final(processor).arithmetic() == old(processor).arithmetic(),
{
    let samples = prepare_input::<T, D, K, W>(
        processor.kernel(),
        w,
        data,
        channels,
        input_rate,
        output_rate,
    );
    let output = processor.process_samples(samples.as_slice());
    if output.len() > 0 {
        Some(output)
    } else {
        None
    }
}

} // verus!
