use vocal_sieve::mode::ProcessingMode;
use vocal_sieve::target::TargetAction;

#[test]
fn modes_are_listed_once_and_in_order() {
    assert_eq!(
        ProcessingMode::all(),
        &[ProcessingMode::Performance, ProcessingMode::Balanced, ProcessingMode::Deep]
    );
}

#[test]
fn labels_are_shown_in_chinese() {
    assert_eq!(ProcessingMode::Performance.label(), "性能模式");
    assert_eq!(ProcessingMode::Balanced.label(), "平衡模式");
    assert_eq!(ProcessingMode::Deep.label(), "深度模式");
    assert_eq!(TargetAction::Suppress.label(), "消除");
    assert_eq!(TargetAction::Enhance.label(), "增强");
}

#[test]
fn parameters_of_the_modes() {
    let p = ProcessingMode::Performance;
    let b = ProcessingMode::Balanced;
    let d = ProcessingMode::Deep;
    assert_eq!([p.frame_duration_ms(), b.frame_duration_ms(), d.frame_duration_ms()], [16, 32, 46]);
    assert_eq!([p.overlap_ratio(), b.overlap_ratio(), d.overlap_ratio()], [0, 500, 875]);
    assert_eq!(
        [p.similarity_threshold(), b.similarity_threshold(), d.similarity_threshold()],
        [700, 650, 550]
    );
    assert_eq!([p.suppress_gain(), b.suppress_gain(), d.suppress_gain()], [0, 0, 0]);
    assert_eq!([p.enhance_gain(), b.enhance_gain(), d.enhance_gain()], [2500, 2000, 3000]);
    assert_eq!([p.smoothing_coeff(), b.smoothing_coeff(), d.smoothing_coeff()], [700, 600, 800]);
    assert_eq!(
        [p.temporal_smooth_frames(), b.temporal_smooth_frames(), d.temporal_smooth_frames()],
        [1, 3, 5]
    );
    assert_eq!([p.max_targets(), b.max_targets(), d.max_targets()], [1, usize::MAX, usize::MAX]);
    assert_eq!([p.uses_fft(), b.uses_fft(), d.uses_fft()], [false, true, true]);
    assert_eq!([p.uses_window(), b.uses_window(), d.uses_window()], [false, false, true]);
    assert_eq!([p.uses_overlap(), b.uses_overlap(), d.uses_overlap()], [false, true, true]);
}

#[test]
fn thousandths_are_the_single_precision_parameters() {
    assert_eq!(700u32 as f32 / 1000.0, 0.70f32);
    assert_eq!(650u32 as f32 / 1000.0, 0.65f32);
    assert_eq!(550u32 as f32 / 1000.0, 0.55f32);
    assert_eq!(600u32 as f32 / 1000.0, 0.60f32);
    assert_eq!(800u32 as f32 / 1000.0, 0.80f32);
    assert_eq!(2500u32 as f32 / 1000.0, 2.5f32);
    assert_eq!(1u32 as f32 / 1000.0, 0.001f32);
    assert_eq!(1.0f32 / 10_000_000_000u64 as f32, 1e-10f32);
}
