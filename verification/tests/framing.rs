use vocal_sieve::framing::{frame_size, hop_size};
use vocal_sieve::mode::ProcessingMode;
use vocal_sieve::reference::pick_index;
use vocal_sieve::rounding::round_nearest;

const MODES: [ProcessingMode; 3] =
    [ProcessingMode::Performance, ProcessingMode::Balanced, ProcessingMode::Deep];

fn real_ratio(mode: ProcessingMode) -> f32 {
    mode.overlap_ratio() as f32 / 1000.0
}

#[test]
fn frame_sizes_at_common_rates() {
    assert_eq!(frame_size(ProcessingMode::Performance, 48000), 768);
    assert_eq!(frame_size(ProcessingMode::Balanced, 48000), 1536);
    assert_eq!(frame_size(ProcessingMode::Deep, 48000), 2208);
    assert_eq!(frame_size(ProcessingMode::Performance, 44100), 706);
    assert_eq!(frame_size(ProcessingMode::Balanced, 44100), 1411);
    assert_eq!(frame_size(ProcessingMode::Deep, 44100), 2029);
}

#[test]
fn frames_have_at_least_64_samples() {
    assert_eq!(frame_size(ProcessingMode::Performance, 0), 64);
    assert_eq!(frame_size(ProcessingMode::Performance, 3999), 64);
    assert_eq!(frame_size(ProcessingMode::Performance, 4100), 66);
}

#[test]
fn frame_sizes_agree_with_double_precision() {
    let mut rate: u32 = 0;
    while rate < 4_200_000_000 {
        for mode in MODES {
            let real = (rate as f64 * mode.frame_duration_ms() as f64 / 1000.0).round() as usize;
            assert_eq!(frame_size(mode, rate), real.max(64));
        }
        rate = rate + 1 + rate / 300;
    }
}

#[test]
fn hop_sizes_at_common_rates() {
    assert_eq!(hop_size(ProcessingMode::Performance, 768), 768);
    assert_eq!(hop_size(ProcessingMode::Balanced, 1536), 768);
    assert_eq!(hop_size(ProcessingMode::Balanced, 1411), 705);
    assert_eq!(hop_size(ProcessingMode::Deep, 2208), 276);
    assert_eq!(hop_size(ProcessingMode::Deep, 2029), 253);
    assert_eq!(hop_size(ProcessingMode::Deep, 7), 1);
}

#[test]
fn hop_sizes_agree_with_single_precision() {
    for mode in MODES {
        let mut frame: usize = 1;
        while frame <= 0x1000_0000 {
            let real = (frame as f32 * (1.0 - real_ratio(mode))) as usize;
            assert_eq!(hop_size(mode, frame), real.max(1));
            frame = frame + 1 + frame / 500;
        }
        for frame in 16_777_200..16_777_260 {
            let real = (frame as f32 * (1.0 - real_ratio(mode))) as usize;
            assert_eq!(hop_size(mode, frame), real.max(1));
        }
    }
}

#[test]
fn long_frames_without_overlap_may_round_up() {
    assert_eq!(hop_size(ProcessingMode::Performance, 16_777_217), 16_777_216);
    assert_eq!(hop_size(ProcessingMode::Performance, 16_777_219), 16_777_220);
}

#[test]
fn rounding_keeps_24_bits_and_prefers_even() {
    assert_eq!(round_nearest(16_777_215, 1), 16_777_215);
    assert_eq!(round_nearest(16_777_217, 1), 16_777_216);
    assert_eq!(round_nearest(16_777_219, 1), 16_777_220);
    assert_eq!(round_nearest(33_554_434, 1), 33_554_432);
    assert_eq!(round_nearest(33_554_435, 1), 33_554_436);
    assert_eq!(round_nearest(101 << 23, 100), 8_472_494);
}

#[test]
fn picked_places_agree_with_single_precision() {
    for n in 101..2500usize {
        let step = n as f32 / 100.0;
        for i in 0..100usize {
            assert_eq!(pick_index(n, i), (i as f32 * step) as usize);
        }
    }
    for n in [16_777_217usize, 20_000_003, 123_456_789, 4_000_000_007] {
        let step = n as f32 / 100.0;
        for i in 0..100usize {
            assert_eq!(pick_index(n, i), (i as f32 * step) as usize);
        }
    }
}

#[test]
fn picked_places_keep_order_and_stay_inside() {
    for n in [101usize, 130, 199, 1000, 99_999] {
        assert_eq!(pick_index(n, 0), 0);
        for i in 1..100usize {
            assert!(pick_index(n, i - 1) <= pick_index(n, i));
        }
        assert!(pick_index(n, 99) < n);
    }
}
