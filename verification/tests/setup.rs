use vocal_sieve::arithmetic::{Analysis, Arithmetic};
use vocal_sieve::mode::ProcessingMode;
use vocal_sieve::setup::{
    action_by_number, mode_by_number, select_processing_mode, select_target_action, Enrollment, Step,
};
use vocal_sieve::target::TargetAction;
use vocal_sieve::text::trim;

/// Single precision without a transform, which the mode under test does not use.
struct Plain;

impl Arithmetic<f32> for Plain {
    fn number(&self, n: u64) -> f32 {
        n as f32
    }
    fn sum(&self, a: f32, b: f32) -> f32 {
        a + b
    }
    fn difference(&self, a: f32, b: f32) -> f32 {
        a - b
    }
    fn product(&self, a: f32, b: f32) -> f32 {
        a * b
    }
    fn quotient(&self, a: f32, b: f32) -> f32 {
        a / b
    }
    fn less(&self, a: f32, b: f32) -> bool {
        a < b
    }
    fn at_least(&self, a: f32, b: f32) -> bool {
        a >= b
    }
    fn truncate(&self, a: f32) -> usize {
        a as usize
    }
}

impl Analysis<f32> for Plain {
    fn sqrt(&self, a: f32) -> f32 {
        a.sqrt()
    }
    fn ln(&self, a: f32) -> f32 {
        a.ln()
    }
    fn power(&self, a: f32, b: f32) -> f32 {
        a.powf(b)
    }
    fn cos(&self, a: f32) -> f32 {
        a.cos()
    }
    fn pi(&self) -> f32 {
        std::f32::consts::PI
    }
    fn ln_10(&self) -> f32 {
        std::f32::consts::LN_10
    }
    fn transform(&self, frame: &Vec<f32>) -> Vec<(f32, f32)> {
        frame.iter().map(|&x| (x, 0.0)).collect()
    }
}

#[test]
fn modes_are_chosen_by_number() {
    assert_eq!(select_processing_mode("1\n"), Some(ProcessingMode::Performance));
    assert_eq!(select_processing_mode("  2 "), Some(ProcessingMode::Balanced));
    assert_eq!(select_processing_mode("3"), Some(ProcessingMode::Deep));
    assert_eq!(select_processing_mode("4"), None);
    assert_eq!(select_processing_mode(""), None);
    assert_eq!(select_processing_mode("1 2"), None);
    assert_eq!(mode_by_number(" 1"), None);
}

#[test]
fn actions_are_chosen_by_number() {
    assert_eq!(select_target_action("1\r\n"), Some(TargetAction::Suppress));
    assert_eq!(select_target_action("2"), Some(TargetAction::Enhance));
    assert_eq!(select_target_action("3"), None);
    assert_eq!(action_by_number("2 "), None);
}

#[test]
fn white_space_is_trimmed_at_both_ends() {
    assert_eq!(trim("\u{3000} a b\t\n"), "a b");
    assert_eq!(trim(" \n "), "");
    assert_eq!(trim(""), "");
    assert_eq!(trim("x"), "x");
}

#[test]
fn performance_takes_one_target() {
    let mut e = Enrollment::<f32>::new(ProcessingMode::Performance);
    assert!(matches!(e.step, Step::AskMore));
    assert!(e.answer("Y\n"));
    assert!(matches!(e.step, Step::AskName));
    assert!(e.answer(" Ann \n"));
    assert!(matches!(&e.step, Step::AskAction { name } if name == "Ann"));
    assert!(!e.answer("9"));
    assert!(matches!(&e.step, Step::AskAction { name } if name == "Ann"));
    assert!(e.answer("1"));
    assert!(matches!(&e.step, Step::Record { name, action: TargetAction::Suppress } if name == "Ann"));
    assert!(e.recorded(&Plain, &vec![0.5; 768 * 2], 48000));
    assert!(matches!(e.step, Step::Full));
    assert_eq!(e.targets.len(), 1);
    assert_eq!(e.targets[0].name, "Ann");
    assert_eq!(e.targets[0].action, TargetAction::Suppress);
    assert_eq!(e.targets[0].reference_features, vec![vec![0.25; 4], vec![0.25; 4]]);
    assert!(!e.answer("y"));
    assert!(matches!(e.step, Step::Full));
}

#[test]
fn other_modes_ask_for_more() {
    let mut e = Enrollment::<f32>::new(ProcessingMode::Balanced);
    for name in ["a", "b"] {
        assert!(e.answer("y"));
        assert!(e.answer(name));
        assert!(e.answer("2"));
        assert!(e.recorded(&Plain, &vec![0.0; 128], 48000));
        assert!(matches!(e.step, Step::AskMore));
    }
    assert!(e.answer("n"));
    assert!(matches!(e.step, Step::Finished));
    assert_eq!(e.targets.len(), 2);
    assert_eq!(e.targets[1].action, TargetAction::Enhance);
    assert_eq!(e.targets[1].reference_features.len(), 0);
}

#[test]
fn empty_names_and_short_recordings_start_over() {
    let mut e = Enrollment::<f32>::new(ProcessingMode::Deep);
    e.answer("y");
    assert!(!e.answer("   "));
    assert!(matches!(e.step, Step::AskMore));
    e.answer("y");
    e.answer("x");
    e.answer("1");
    assert!(!e.recorded(&Plain, &vec![0.5; 127], 48000));
    assert!(matches!(e.step, Step::AskMore));
    assert_eq!(e.targets.len(), 0);
    assert!(!e.recorded(&Plain, &vec![0.5; 1000], 48000));
    assert!(e.answer("yes"));
    assert!(matches!(e.step, Step::Finished));
}

#[test]
fn white_space_is_what_unicode_lists() {
    for code in 0..=0x10_ffffu32 {
        if let Some(c) = char::from_u32(code) {
            let listed = matches!(
                code,
                0x09..=0x0d
                    | 0x20
                    | 0x85
                    | 0xa0
                    | 0x1680
                    | 0x2000..=0x200a
                    | 0x2028
                    | 0x2029
                    | 0x202f
                    | 0x205f
                    | 0x3000
            );
            assert_eq!(c.is_whitespace(), listed);
            assert_eq!(trim(&c.to_string()).is_empty(), listed);
        }
    }
}

#[test]
fn yes_is_understood_in_either_case() {
    for line in ["y", "Y", " y\n", "\tY\r\n"] {
        let mut e = Enrollment::<f32>::new(ProcessingMode::Deep);
        assert!(e.answer(line));
        assert!(matches!(e.step, Step::AskName));
    }
    for line in ["", "n", "yy", "是", "Ｙ"] {
        let mut e = Enrollment::<f32>::new(ProcessingMode::Deep);
        assert!(e.answer(line));
        assert!(matches!(e.step, Step::Finished));
    }
    for code in 0..128u8 {
        let text = (code as char).to_string();
        assert_eq!(text.to_lowercase(), text.to_ascii_lowercase());
    }
}
