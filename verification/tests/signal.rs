use std::cell::RefCell;

use rustfft::num_complex::Complex;
use rustfft::FftPlanner;
use vocal_sieve::arithmetic::{dot, maximum, thousandths, Analysis, Arithmetic, Narrowing};
use vocal_sieve::features::{
    clamp_triangle, extract_mel_spectrum, extract_subband_energy, frame_rms, hanning_window,
    hz_to_mel, is_silent, mel_edges, mel_to_hz, normalize, spectrum_power,
};
use vocal_sieve::mode::ProcessingMode;
use vocal_sieve::processor::{any_match, AudioProcessor};
use vocal_sieve::reference::{build_reference_features, extract_spoken_features};
use vocal_sieve::resample::{capture, prepare_input, resample};
use vocal_sieve::target::{
    compute_max_similarity, cosine_similarity, match_targets, TargetAction, TargetVoice,
};

/// Single precision, with a planned transform.
struct Single {
    planner: RefCell<FftPlanner<f32>>,
}

fn single() -> Single {
    Single { planner: RefCell::new(FftPlanner::new()) }
}

impl Arithmetic<f32> for Single {
    fn number(&self, n: u64) -> f32 {
        n as f32
    }
    fn sum(&self, a: f32, b: f32) -> f32 {
        a + b
    }
    fn difference(&self, a: f32, b: f32) -> f32 {
        a - b
    }
    fn product(&self, a: f32, b: f32) -> f32 {
        a * b
    }
    fn quotient(&self, a: f32, b: f32) -> f32 {
        a / b
    }
    fn less(&self, a: f32, b: f32) -> bool {
        a < b
    }
    fn at_least(&self, a: f32, b: f32) -> bool {
        a >= b
    }
    fn truncate(&self, a: f32) -> usize {
        a as usize
    }
}

impl Analysis<f32> for Single {
    fn sqrt(&self, a: f32) -> f32 {
        a.sqrt()
    }
    fn ln(&self, a: f32) -> f32 {
        a.ln()
    }
    fn power(&self, a: f32, b: f32) -> f32 {
        a.powf(b)
    }
    fn cos(&self, a: f32) -> f32 {
        a.cos()
    }
    fn pi(&self) -> f32 {
        std::f32::consts::PI
    }
    fn ln_10(&self) -> f32 {
        std::f32::consts::LN_10
    }
    fn transform(&self, frame: &Vec<f32>) -> Vec<(f32, f32)> {
        let fft = self.planner.borrow_mut().plan_fft_forward(frame.len());
        let mut bins: Vec<Complex<f32>> = frame.iter().map(|&x| Complex::new(x, 0.0)).collect();
        fft.process(&mut bins);
        bins.iter().map(|c| (c.re, c.im)).collect()
    }
}

/// Double precision.
struct Double;

impl Arithmetic<f64> for Double {
    fn number(&self, n: u64) -> f64 {
        n as f64
    }
    fn sum(&self, a: f64, b: f64) -> f64 {
        a + b
    }
    fn difference(&self, a: f64, b: f64) -> f64 {
        a - b
    }
    fn product(&self, a: f64, b: f64) -> f64 {
        a * b
    }
    fn quotient(&self, a: f64, b: f64) -> f64 {
        a / b
    }
    fn less(&self, a: f64, b: f64) -> bool {
        a < b
    }
    fn at_least(&self, a: f64, b: f64) -> bool {
        a >= b
    }
    fn truncate(&self, a: f64) -> usize {
        a as usize
    }
}

impl Narrowing<f64, f32> for Double {
    fn narrow(&self, a: f64) -> f32 {
        a as f32
    }
}

fn sine(hz: f32, rate: f32, n: usize) -> Vec<f32> {
    (0..n).map(|i| (2.0 * std::f32::consts::PI * hz * i as f32 / rate).sin() * 0.5).collect()
}

/// A frame of 768 samples with its energy in one quarter.
fn quarter(which: usize) -> Vec<f32> {
    (0..768).map(|i| if i / 192 == which { 0.5 } else { 0.0 }).collect()
}

fn shape(which: usize) -> Vec<f32> {
    (0..4).map(|i| if i == which { 1.0 } else { 0.0 }).collect()
}

fn voice(action: TargetAction, which: usize) -> TargetVoice<f32> {
    TargetVoice { name: "v".to_string(), action, reference_features: vec![shape(which)] }
}

// ---------------------------------------------------------------------------
// Arithmetic
// ---------------------------------------------------------------------------

#[test]
fn sums_and_maxima() {
    let k = single();
    assert_eq!(dot(&k, &[1.0, 2.0, 3.0], &[4.0, 5.0, 6.0]), 32.0);
    assert_eq!(dot(&k, &[], &[]), 0.0);
    assert_eq!(maximum(&k, 1.0, 2.0), 2.0);
    assert_eq!(maximum(&k, 2.0, 1.0), 2.0);
    assert_eq!(maximum(&k, 2.0, f32::NAN), 2.0);
    assert_eq!(maximum(&k, f32::NAN, -2.0), -2.0);
    assert_eq!(thousandths(&k, 650), 0.65);
}

// ---------------------------------------------------------------------------
// Features
// ---------------------------------------------------------------------------

#[test]
fn root_mean_square_of_a_frame() {
    let k = single();
    assert_eq!(frame_rms(&k, &[3.0, -3.0, 3.0, -3.0]), 3.0);
    assert!(is_silent(&k, &[0.0009, -0.0009]));
    assert!(!is_silent(&k, &[0.0011, -0.0011]));
    assert!(is_silent(&k, &[0.0; 64]));
}

#[test]
fn subband_shares_of_a_frame() {
    let k = single();
    let frame = [1.0, 1.0, 1.0, 1.0, 0.0, 0.0, 2.0, 0.0];
    assert_eq!(extract_subband_energy(&k, &frame), vec![0.25, 0.25, 0.0, 0.5]);
    assert_eq!(extract_subband_energy(&k, &[0.0; 8]), vec![0.25; 4]);
    assert_eq!(extract_subband_energy(&k, &[]), vec![0.25; 4]);
    assert_eq!(extract_subband_energy(&k, &[2.0]), vec![0.0, 0.0, 0.0, 1.0]);
}

#[test]
fn mel_scale_there_and_back() {
    let k = single();
    assert_eq!(
        hz_to_mel(&k, 1000.0),
        2595.0 * (1.0f32 + 1000.0 / 700.0).ln() / std::f32::consts::LN_10
    );
    assert_eq!(mel_to_hz(&k, 1000.0), 700.0 * (10.0f32.powf(1000.0 / 2595.0) - 1.0));
    assert_eq!(hz_to_mel(&k, 0.0), 0.0);
    assert!((mel_to_hz(&k, hz_to_mel(&k, 440.0)) - 440.0).abs() < 0.01);
}

#[test]
fn mel_edges_rise_from_80_hertz_to_half_the_rate() {
    let k = single();
    let edges = mel_edges(&k, 48000, 1536, 32);
    assert_eq!(edges.len(), 34);
    assert_eq!(edges[0], 2);
    assert!(edges[33] == 767 || edges[33] == 768);
    for i in 1..34 {
        assert!(edges[i - 1] <= edges[i]);
    }
}

#[test]
fn triangles_stay_inside_the_spectrum() {
    let t = clamp_triangle(0, 0, 5, 10);
    assert_eq!((t.left, t.center, t.right), (1, 1, 5));
    let t = clamp_triangle(3, 20, 30, 10);
    assert_eq!((t.left, t.center, t.right), (3, 9, 9));
    let t = clamp_triangle(12, 15, 20, 10);
    assert_eq!((t.left, t.center, t.right), (12, 9, 9));
}

#[test]
fn power_of_a_spectrum() {
    let k = single();
    let bins = vec![(4.0, 0.0), (1.0, 2.0), (0.0, 2.0), (9.0, 9.0)];
    assert_eq!(spectrum_power(&k, &bins), vec![4.0, 1.25, 1.0]);
}

#[test]
fn vectors_are_scaled_to_length_one() {
    let k = single();
    assert_eq!(normalize(&k, &vec![3.0, 4.0]), vec![0.6, 0.8]);
    assert_eq!(normalize(&k, &vec![0.0, 0.0]), vec![0.0, 0.0]);
}

#[test]
fn hann_window() {
    let k = single();
    let w = hanning_window(&k, 4);
    assert_eq!(w[0], 0.0);
    assert!((w[1] - 0.5).abs() < 1e-6);
    assert_eq!(w[2], 1.0);
    assert!((w[3] - 0.5).abs() < 1e-6);
    assert_eq!(hanning_window(&k, 0), Vec::<f32>::new());
}

/// The mel spectrum written out in plain single precision.
fn plain_mel_spectrum(frame: &[f32], sample_rate: u32, n_mels: usize) -> Vec<f32> {
    let n = frame.len();
    let fft = FftPlanner::new().plan_fft_forward(n);
    let mut buffer: Vec<Complex<f32>> = frame.iter().map(|&x| Complex::new(x, 0.0)).collect();
    fft.process(&mut buffer);
    let len = n / 2 + 1;
    let power: Vec<f32> = buffer[..len].iter().map(|c| c.norm_sqr() / (n as f32)).collect();
    let to_mel = |hz: f32| 2595.0 * (1.0 + hz / 700.0).ln() / std::f32::consts::LN_10;
    let low = to_mel(80.0);
    let high = to_mel(sample_rate as f32 / 2.0);
    let bins: Vec<f32> = (0..=n_mels + 1)
        .map(|i| low + (high - low) * i as f32 / (n_mels + 1) as f32)
        .map(|m| 700.0 * (10.0f32.powf(m / 2595.0) - 1.0))
        .map(|hz| (hz / sample_rate as f32) * (n as f32))
        .collect();
    let mut levels = vec![0.0f32; n_mels];
    for i in 0..n_mels {
        let left = (bins[i] as usize).max(1);
        let right = (bins[i + 2] as usize).min(len - 1);
        let center = (bins[i + 1] as usize).max(left).min(right);
        let mut energy = 0.0f32;
        for k in left..=right {
            let weight = if k <= center && center > left {
                (k - left) as f32 / (center - left) as f32
            } else if k > center && right > center {
                (right - k) as f32 / (right - center) as f32
            } else {
                1.0
            };
            energy += power[k] * weight;
        }
        levels[i] = energy.max(1e-10).ln();
    }
    let norm = levels.iter().map(|x| x * x).sum::<f32>().sqrt();
    if norm < 1e-10 {
        return vec![0.0; n_mels];
    }
    levels.iter().map(|&x| x / norm).collect()
}

#[test]
fn mel_spectrum_agrees_with_the_plain_formula() {
    let k = single();
    for n in [64usize, 512, 1411, 1536] {
        let mut frame = sine(440.0, 48000.0, n);
        for (i, x) in sine(3000.0, 48000.0, n).iter().enumerate() {
            frame[i] += x;
        }
        assert_eq!(extract_mel_spectrum(&k, &frame, 48000, 32), plain_mel_spectrum(&frame, 48000, 32));
    }
    let short = vec![0.5f32];
    assert_eq!(extract_mel_spectrum(&k, &short, 48000, 32), plain_mel_spectrum(&short, 48000, 32));
}

// ---------------------------------------------------------------------------
// Similarity
// ---------------------------------------------------------------------------

#[test]
fn cosine_of_two_vectors() {
    let k = single();
    assert_eq!(cosine_similarity(&k, &[1.0, 0.0], &[2.0, 0.0]), 1.0);
    assert_eq!(cosine_similarity(&k, &[1.0, 0.0], &[0.0, 3.0]), 0.0);
    assert_eq!(cosine_similarity(&k, &[1.0], &[-1.0]), -1.0);
    assert_eq!(cosine_similarity(&k, &[3.0, 4.0], &[4.0, 3.0]), 0.96);
}

#[test]
fn cosine_of_unequal_or_empty_vectors_is_zero() {
    let k = single();
    assert_eq!(cosine_similarity(&k, &[1.0], &[1.0, 0.0]), 0.0);
    assert_eq!(cosine_similarity(&k, &[], &[]), 0.0);
    assert_eq!(cosine_similarity(&k, &[0.0, 0.0], &[1.0, 0.0]), 0.0);
}

#[test]
fn best_match_is_the_largest() {
    let k = single();
    let refs = vec![vec![0.0, 1.0], vec![3.0, 4.0], vec![-1.0, 0.0]];
    assert_eq!(compute_max_similarity(&k, &[1.0, 0.0], &refs), 0.6);
    assert_eq!(compute_max_similarity(&k, &[1.0, 0.0], &vec![vec![-1.0, 0.0]]), -1.0);
    let opposed = vec![vec![-1.0, 0.0], vec![-3.0, 4.0]];
    assert_eq!(compute_max_similarity(&k, &[1.0, 0.0], &opposed), -0.6);
    let unknown = vec![vec![f32::NAN, 0.0], vec![-1.0, 0.0]];
    assert_eq!(compute_max_similarity(&k, &[1.0, 0.0], &unknown), -1.0);
    let unknown = vec![vec![-1.0, 0.0], vec![f32::NAN, 0.0]];
    assert_eq!(compute_max_similarity(&k, &[1.0, 0.0], &unknown), -1.0);
    assert_eq!(compute_max_similarity(&k, &[1.0, 0.0], &vec![]), 0.0);
    let unknown = vec![vec![f32::NAN, 0.0]];
    assert_eq!(compute_max_similarity(&k, &[1.0, 0.0], &unknown), 0.0);
    let unknown = vec![vec![f32::NAN, 0.0], vec![0.0, f32::NAN]];
    assert_eq!(compute_max_similarity(&k, &[1.0, 0.0], &unknown), 0.0);
    let opposed = vec![vec![-1.0, 0.0]];
    assert_eq!(compute_max_similarity(&k, &[f32::NAN, 0.0], &opposed), 0.0);
    let targets = vec![voice(TargetAction::Suppress, 0), voice(TargetAction::Enhance, 1)];
    assert_eq!(match_targets(&k, &shape(1), &targets), vec![0.0, 1.0]);
}

// ---------------------------------------------------------------------------
// The signal path
// ---------------------------------------------------------------------------

fn performance(targets: Vec<TargetVoice<f32>>) -> AudioProcessor<f32, Single> {
    AudioProcessor::new(ProcessingMode::Performance, targets, 48000, single())
}

#[test]
fn new_processor_has_no_history() {
    let p = performance(vec![voice(TargetAction::Suppress, 0)]);
    assert_eq!(p.frames_processed(), 0);
    assert_eq!(p.frame_size(), 768);
    assert_eq!(p.hop_size(), 768);
    assert_eq!(p.last_gain(), 1.0);
    assert_eq!(p.last_similarities(), &vec![0.0]);
    assert_eq!(p.kernel().number(3), 3.0);
}

#[test]
fn samples_wait_for_a_complete_frame() {
    let mut p = performance(vec![]);
    let frame = quarter(0);
    assert_eq!(p.process_samples(&frame[..700]), Vec::<f32>::new());
    assert_eq!(p.frames_processed(), 0);
    assert_eq!(p.process_samples(&frame[700..]), frame);
    assert_eq!(p.frames_processed(), 1);
}

#[test]
fn without_targets_the_stream_is_unchanged() {
    let mut p = performance(vec![]);
    let input = sine(300.0, 48000.0, 4000);
    let out = p.process_samples(&input);
    assert_eq!(out.len(), 5 * 768);
    assert_eq!(out[..], input[..5 * 768]);
    assert_eq!(p.last_gain(), 1.0);
}

#[test]
fn silence_is_unchanged_in_every_mode_without_overlap() {
    let mut p = performance(vec![voice(TargetAction::Suppress, 0)]);
    let input: Vec<f32> = (0..2000).map(|i| if i % 2 == 0 { 0.0005 } else { -0.0005 }).collect();
    let out = p.process_samples(&input);
    assert_eq!(out[..], input[..1536]);
    assert_eq!(p.frames_processed(), 2);
}

#[test]
fn matching_voice_fades_out() {
    let mut p = performance(vec![voice(TargetAction::Suppress, 2)]);
    let out = p.process_samples(&quarter(2));
    assert_eq!(p.last_similarities(), &vec![1.0]);
    assert_eq!(p.last_gain(), 0.70);
    assert_eq!(out[2 * 192], 0.5 * 0.70f32);
    p.process_samples(&quarter(2));
    assert_eq!(p.last_gain(), 0.70f32 * 0.70 + (1.0 - 0.70f32) * 0.0);
}

#[test]
fn matching_voice_is_enhanced() {
    let mut p = performance(vec![voice(TargetAction::Enhance, 1)]);
    p.process_samples(&quarter(1));
    assert_eq!(p.last_gain(), 0.70f32 * 1.0 + (1.0 - 0.70f32) * 2.5);
}

#[test]
fn suppression_is_held_for_three_frames() {
    let mut p = performance(vec![voice(TargetAction::Suppress, 0)]);
    let mut gain = 1.0f32;
    p.process_samples(&quarter(0));
    gain = 0.70 * gain;
    assert_eq!(p.last_gain(), gain);
    for _ in 0..3 {
        p.process_samples(&quarter(3));
        gain = 0.70 * gain;
        assert_eq!(p.last_gain(), gain);
    }
    p.process_samples(&quarter(3));
    gain = 0.70 * gain + (1.0 - 0.70);
    assert_eq!(p.last_gain(), gain);
}

#[test]
fn silence_ends_a_hold() {
    let mut p = performance(vec![voice(TargetAction::Suppress, 0)]);
    p.process_samples(&quarter(0));
    let out = p.process_samples(&[0.0; 768]);
    assert_eq!(out, vec![0.0; 768]);
    assert_eq!(p.last_gain(), 1.0);
    assert_eq!(p.last_similarities(), &vec![1.0]);
    p.process_samples(&quarter(3));
    assert_eq!(p.last_gain(), 1.0);
}

#[test]
fn suppression_comes_before_enhancement() {
    let both = vec![voice(TargetAction::Enhance, 0), voice(TargetAction::Suppress, 0)];
    let mut p = performance(both);
    p.process_samples(&quarter(0));
    assert_eq!(p.last_gain(), 0.70);
}

#[test]
fn batches_join() {
    let targets = || vec![voice(TargetAction::Suppress, 0), voice(TargetAction::Enhance, 1)];
    let input: Vec<f32> = [quarter(0), quarter(1), quarter(3), quarter(3), quarter(3), quarter(1)].concat();
    let mut whole = performance(targets());
    let expected = whole.process_samples(&input);
    for size in [1usize, 100, 767, 768, 769, 5000] {
        let mut p = performance(targets());
        let mut out = Vec::new();
        for batch in input.chunks(size) {
            out.extend(p.process_samples(batch));
        }
        assert_eq!(out, expected);
        assert_eq!(p.last_gain(), whole.last_gain());
        assert_eq!(p.frames_processed(), whole.frames_processed());
    }
}

#[test]
fn overlapping_frames_put_out_a_hop_each() {
    for (mode, frame, hop) in [(ProcessingMode::Balanced, 1536, 768), (ProcessingMode::Deep, 2208, 276)] {
        let mut p = AudioProcessor::new(mode, vec![], 48000, single());
        assert_eq!((p.frame_size(), p.hop_size()), (frame, hop));
        let input = sine(500.0, 48000.0, 5000);
        let out = p.process_samples(&input);
        let frames = (5000 - frame) / hop + 1;
        assert_eq!(p.frames_processed(), frames as u64);
        assert_eq!(out.len(), frames * hop);
    }
}

#[test]
fn overlapping_frames_are_added() {
    let mut p = AudioProcessor::new(ProcessingMode::Balanced, vec![], 48000, single());
    let input = sine(500.0, 48000.0, 3 * 768);
    let out = p.process_samples(&input);
    assert_eq!(out.len(), 2 * 768);
    let gain = p.last_gain();
    assert!((gain - 1.0).abs() < 1e-6);
    assert_eq!(out[10], input[10] * gain);
    let twice = input[768 + 10] + input[768 + 10];
    assert!((out[768 + 10] - twice).abs() < 1e-5);
}

#[test]
fn similarities_are_smoothed_over_three_frames() {
    let k = single();
    let voiced = sine(440.0, 48000.0, 1536);
    let reference = build_reference_features(&k, &voiced, ProcessingMode::Balanced, 48000);
    assert_eq!(reference.len(), 1);
    let target =
        TargetVoice { name: "a".to_string(), action: TargetAction::Enhance, reference_features: reference };
    let mut p = AudioProcessor::new(ProcessingMode::Balanced, vec![target], 48000, single());
    p.process_samples(&voiced);
    let first = p.last_similarities()[0];
    assert!(first > 0.999);
    let noise: Vec<f32> = (0..768).map(|i| ((i * 7919 % 1000) as f32 / 1000.0) - 0.5).collect();
    p.process_samples(&noise);
    p.process_samples(&noise);
    assert_eq!(p.frames_processed(), 3);
    assert!(p.last_similarities()[0] >= first);
    p.process_samples(&noise);
    assert!(p.last_similarities()[0] < first);
}

// ---------------------------------------------------------------------------
// References
// ---------------------------------------------------------------------------

#[test]
fn references_skip_silence_and_incomplete_frames() {
    let k = single();
    let audio: Vec<f32> = [quarter(0), vec![0.0; 768], quarter(2), vec![0.5; 700]].concat();
    let refs = build_reference_features(&k, &audio, ProcessingMode::Performance, 48000);
    assert_eq!(refs, vec![shape(0), shape(2)]);
    let none = build_reference_features(&k, &[0.0; 5000], ProcessingMode::Performance, 48000);
    assert_eq!(none, Vec::<Vec<f32>>::new());
}

#[test]
fn references_are_thinned_out_to_a_hundred() {
    let k = single();
    let mut audio: Vec<f32> = Vec::new();
    for i in 0..130usize {
        let level = 0.1 + i as f32 / 1000.0;
        audio.extend((0..64).map(|j| if j < 16 { level } else { 0.1 }));
    }
    let all: Vec<Vec<f32>> = audio.chunks(64).map(|f| extract_subband_energy(&k, f)).collect();
    let refs = build_reference_features(&k, &audio, ProcessingMode::Performance, 4000);
    assert_eq!(refs.len(), 100);
    let step = 130.0f32 / 100.0;
    for i in 0..100usize {
        assert_eq!(refs[i], all[(i as f32 * step) as usize]);
    }
}

#[test]
fn mel_references_have_32_bands() {
    let k = single();
    let audio = sine(440.0, 48000.0, 10_000);
    let refs = build_reference_features(&k, &audio, ProcessingMode::Deep, 48000);
    assert_eq!(refs.len(), 4);
    let window = hanning_window(&k, 2208);
    let windowed: Vec<f32> = (0..2208).map(|i| audio[i] * window[i]).collect();
    assert_eq!(refs[0], plain_mel_spectrum(&windowed, 48000, 32));
}

// ---------------------------------------------------------------------------
// Resampling
// ---------------------------------------------------------------------------

#[test]
fn equal_rates_change_nothing() {
    let k = single();
    assert_eq!(resample(&k, &Double, vec![1.0, 2.0], 44100, 44100), vec![1.0, 2.0]);
}

#[test]
fn resampling_interpolates() {
    let k = single();
    assert_eq!(
        resample(&k, &Double, vec![0.0, 1.0, 2.0], 24000, 48000),
        vec![0.0, 0.5, 1.0, 1.5, 2.0, 1.0]
    );
    assert_eq!(resample(&k, &Double, vec![0.0, 1.0, 2.0, 3.0], 48000, 24000), vec![0.0, 2.0]);
    assert_eq!(resample(&k, &Double, vec![], 48000, 24000), Vec::<f32>::new());
}

#[test]
fn resampling_agrees_with_the_plain_formula() {
    let k = single();
    let mono = sine(700.0, 44100.0, 441);
    let ratio = 48000.0f64 / 44100.0;
    let len = (mono.len() as f64 * ratio) as usize;
    let mut expected = Vec::new();
    for i in 0..len {
        let place = i as f64 / ratio;
        let index = place as usize;
        let fraction = place - index as f64;
        let s0 = mono.get(index).copied().unwrap_or(0.0);
        let s1 = mono.get(index + 1).copied().unwrap_or(0.0);
        expected.push(s0 + (s1 - s0) * fraction as f32);
    }
    assert_eq!(resample(&k, &Double, mono, 44100, 48000), expected);
}

#[test]
fn input_is_mixed_down_before_it_is_resampled() {
    let k = single();
    let data = [0.0, 9.0, 1.0, 9.0];
    assert_eq!(prepare_input(&k, &Double, &data, 2, 1000, 2000), vec![0.0, 0.5, 1.0, 0.5]);
    assert_eq!(prepare_input(&k, &Double, &data, 1, 1000, 1000), data.to_vec());
}

#[test]
fn captured_batches_go_through_the_signal_path() {
    let mut whole = performance(vec![]);
    let mut plain = performance(vec![]);
    let frame = plain.frame_size();
    // Stereo: the first channel carries the tone.
    let tone = sine(440.0, 48000.0, frame);
    let data: Vec<f32> = tone.iter().flat_map(|&s| [s, 9.0]).collect();

    let early = capture(&mut whole, &Double, &data[..2 * frame - 2], 2, 48000, 48000);
    assert_eq!(early, None);
    assert!(plain.process_samples(&tone[..frame - 1]).is_empty());

    let late = capture(&mut whole, &Double, &data[2 * frame - 2..], 2, 48000, 48000);
    assert_eq!(late, Some(plain.process_samples(&tone[frame - 1..])));
    assert_eq!(late.unwrap().len(), frame);
    assert_eq!(whole.frames_processed(), 1);
}

#[test]
fn captured_batches_are_resampled_first() {
    let mut whole = performance(vec![]);
    let mut plain = performance(vec![]);
    let data = sine(440.0, 24000.0, 2 * plain.frame_size());
    let samples = prepare_input(&single(), &Double, &data, 1, 24000, 48000);
    assert_eq!(
        capture(&mut whole, &Double, &data, 1, 24000, 48000),
        Some(plain.process_samples(&samples))
    );
    assert_eq!(whole.frames_processed(), 4);
}

#[test]
fn every_recorded_frame_is_recognised() {
    let audio: Vec<f32> = (0..3).flat_map(quarter).collect();
    let reference_features =
        build_reference_features(&single(), &audio, ProcessingMode::Performance, 48000);
    assert_eq!(reference_features.len(), 3);
    for which in 0..3 {
        let target = TargetVoice {
            name: "voice".to_string(),
            action: TargetAction::Enhance,
            reference_features: reference_features.clone(),
        };
        let mut p = performance(vec![target]);
        p.process_samples(&quarter(which));
        assert_eq!(p.last_similarities(), &vec![1.0]);
    }
    // A frame that was not recorded is not recognised.
    let target = TargetVoice {
        name: "voice".to_string(),
        action: TargetAction::Enhance,
        reference_features,
    };
    let mut p = performance(vec![target]);
    p.process_samples(&quarter(3));
    assert_eq!(p.last_similarities(), &vec![0.0]);
}

#[test]
fn match_is_above_the_threshold() {
    let k = single();
    let targets = vec![voice(TargetAction::Enhance, 0), voice(TargetAction::Suppress, 1)];
    let (enhance, suppress) = (TargetAction::Enhance, TargetAction::Suppress);
    for (mode, threshold) in [
        (ProcessingMode::Performance, 0.70f32),
        (ProcessingMode::Balanced, 0.65),
        (ProcessingMode::Deep, 0.55),
    ] {
        let above = f32::from_bits(threshold.to_bits() + 1);
        assert!(!any_match(&k, mode, &targets, &vec![threshold, threshold], enhance));
        assert!(!any_match(&k, mode, &targets, &vec![threshold, threshold], suppress));
        assert!(any_match(&k, mode, &targets, &vec![above, threshold], enhance));
        assert!(!any_match(&k, mode, &targets, &vec![above, threshold], suppress));
        assert!(any_match(&k, mode, &targets, &vec![threshold, above], suppress));
        // What stands beyond the targets is not looked at.
        assert!(!any_match(&k, mode, &targets, &vec![threshold, threshold, 1.0], enhance));
        assert!(!any_match(&k, mode, &targets, &vec![f32::NAN, f32::NAN], enhance));
    }
}

#[test]
fn opposed_voice_counts_as_not_heard() {
    let target = TargetVoice {
        name: "a".to_string(),
        action: TargetAction::Suppress,
        reference_features: vec![vec![-1.0, -1.0, -1.0, -1.0]],
    };
    let mut p = performance(vec![target]);
    p.process_samples(&quarter(0));
    assert_eq!(p.last_similarities(), &vec![0.0]);
    assert_eq!(p.last_gain(), 1.0);
}

#[test]
fn equal_rates_of_zero_change_nothing() {
    let k = single();
    assert_eq!(prepare_input(&k, &Double, &[1.0, 2.0, 3.0, 4.0], 2, 0, 0), vec![1.0, 3.0]);
}

#[test]
fn silence_around_a_recording_adds_no_references() {
    let k = single();
    let audio: Vec<f32> = [quarter(0), quarter(2)].concat();
    let around: Vec<f32> = [vec![0.0; 2 * 768], audio.clone(), vec![0.0; 1000]].concat();
    for (mode, rate) in [(ProcessingMode::Performance, 48000), (ProcessingMode::Balanced, 24000)] {
        assert_eq!(
            build_reference_features(&k, &around, mode, rate),
            build_reference_features(&k, &audio, mode, rate)
        );
    }
}

#[test]
fn all_spoken_frames_are_extracted() {
    let k = single();
    let audio: Vec<f32> = (0..130).flat_map(|i| quarter(i % 4)).collect();
    let all = extract_spoken_features(&k, &audio, ProcessingMode::Performance, 48000);
    assert_eq!(all.len(), 130);
    let kept = build_reference_features(&k, &audio, ProcessingMode::Performance, 48000);
    assert_eq!(kept.len(), 100);
    for (i, features) in kept.iter().enumerate() {
        assert_eq!(features, &all[(i as f32 * 1.3f32) as usize]);
    }
}

#[test]
fn gain_stays_within_its_bounds() {
    let tones: Vec<f32> = (0..40).flat_map(|i| quarter(i * 7 % 4)).collect();
    for mode in [ProcessingMode::Performance, ProcessingMode::Balanced, ProcessingMode::Deep] {
        let top = mode.enhance_gain() as f32 / 1000.0;
        let target = |action, which: usize| TargetVoice {
            name: "a".to_string(),
            action,
            reference_features: build_reference_features(
                &single(),
                &[quarter(which), quarter(which), quarter(which)].concat(),
                mode,
                48000,
            ),
        };
        let (suppress, enhance) = (TargetAction::Suppress, TargetAction::Enhance);
        for (targets, low, high) in [
            (vec![target(suppress, 0), target(enhance, 1)], 0.0, top + 1e-5),
            (vec![target(enhance, 1)], 1.0, top + 1e-5),
            (vec![target(suppress, 0)], 0.0, 1.0),
        ] {
            let mut p = AudioProcessor::new(mode, targets, 48000, single());
            for batch in tones.chunks(500) {
                p.process_samples(batch);
                assert!(low <= p.last_gain() && p.last_gain() <= high);
            }
            assert!(p.frames_processed() > 10);
        }
    }
}

#[test]
fn similarity_is_symmetric() {
    let k = single();
    let a = [0.3f32, -0.7, 0.11, 5.0];
    let b = [1.5f32, 0.25, -0.9, 0.4];
    assert_eq!(cosine_similarity(&k, &a, &b), cosine_similarity(&k, &b, &a));
}

#[test]
fn polarity_does_not_change_the_features() {
    let k = single();
    let frame = sine(523.0, 48000.0, 1536);
    let flipped: Vec<f32> = frame.iter().map(|&s| 0.0 - s).collect();
    assert_eq!(
        extract_mel_spectrum(&k, &flipped, 48000, 32),
        extract_mel_spectrum(&k, &frame, 48000, 32)
    );
    assert_eq!(extract_subband_energy(&k, &flipped), extract_subband_energy(&k, &frame));
}

#[test]
fn gains_are_decided_by_priority() {
    let targets = || {
        vec![voice(TargetAction::Enhance, 0), voice(TargetAction::Suppress, 1)]
    };
    let mut p = performance(targets());
    // Equal to the threshold is not above it, and what stands beyond the targets is not
    // looked at.
    assert_eq!(p.decide_gain(&vec![0.70, 0.70]), 1000);
    assert_eq!(p.decide_gain(&vec![0.70, 0.70, 1.0]), 1000);
    assert_eq!(p.decide_gain(&vec![0.71, 0.0]), 2500);
    assert_eq!(p.decide_gain(&vec![0.71, 0.71]), 0);
    for _ in 0..3 {
        assert_eq!(p.decide_gain(&vec![0.71, 0.0]), 0);
    }
    assert_eq!(p.decide_gain(&vec![0.71, 0.0]), 2500);
    assert_eq!(p.decide_gain(&vec![0.0, 0.0]), 1000);
    // A match during a hold starts it anew.
    assert_eq!(p.decide_gain(&vec![0.0, 0.9]), 0);
    assert_eq!(p.decide_gain(&vec![0.0, 0.0]), 0);
    assert_eq!(p.decide_gain(&vec![0.0, 0.9]), 0);
    for _ in 0..3 {
        assert_eq!(p.decide_gain(&vec![0.0, 0.0]), 0);
    }
    assert_eq!(p.decide_gain(&vec![0.0, 0.0]), 1000);
}

#[test]
fn smoothed_similarities_forget_after_three_calls() {
    let target = TargetVoice {
        name: "a".to_string(),
        action: TargetAction::Enhance,
        reference_features: vec![vec![1.0, 0.0]],
    };
    let mut p = AudioProcessor::new(ProcessingMode::Balanced, vec![target], 48000, single());
    assert_eq!(p.compute_smoothed_similarities(&vec![-1.0, 0.0]), vec![0.0]);
    assert_eq!(p.compute_smoothed_similarities(&vec![3.0, 4.0]), vec![0.6]);
    assert_eq!(p.compute_smoothed_similarities(&vec![0.0, 1.0]), vec![0.6]);
    assert_eq!(p.compute_smoothed_similarities(&vec![-1.0, 0.0]), vec![0.6]);
    assert_eq!(p.compute_smoothed_similarities(&vec![4.0, 3.0]), vec![0.8]);
    assert_eq!(p.compute_smoothed_similarities(&vec![f32::NAN, 0.0]), vec![0.8]);
    assert_eq!(p.compute_smoothed_similarities(&vec![0.0, 1.0]), vec![0.8]);
    assert_eq!(p.compute_smoothed_similarities(&vec![0.0, 1.0]), vec![0.0]);
}

#[test]
fn silent_frames_are_not_analysed() {
    let mut p = performance(vec![]);
    p.process_samples(&[quarter(0), vec![0.0; 768], quarter(1)].concat());
    assert_eq!(p.frames_processed(), 3);
    assert_eq!(p.frames_analysed(), 2);
}

#[test]
fn shares_are_between_zero_and_one() {
    let k = single();
    for frame in [quarter(1), sine(97.0, 8000.0, 131), vec![0.0; 64], vec![3.0e4; 5], vec![]] {
        let shares = extract_subband_energy(&k, &frame);
        assert_eq!(shares.len(), 4);
        for share in shares {
            assert!(0.0 <= share && share <= 1.0);
        }
    }
}

#[test]
fn similarity_is_between_minus_one_and_one() {
    let k = single();
    for i in 0..50 {
        let a = sine(40.0 + i as f32, 8000.0, 33);
        let b = sine(900.0 - 13.0 * i as f32, 8000.0, 33);
        let similarity = cosine_similarity(&k, &a, &b);
        assert!(-1.0001 <= similarity && similarity <= 1.0001);
    }
    assert_eq!(cosine_similarity(&k, &[1.0, 2.0, 2.0], &[-1.0, -2.0, -2.0]), -1.0);
}
