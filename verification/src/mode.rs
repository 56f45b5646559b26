//! The processing modes and their parameters.

use vstd::prelude::*;

verus! {

/// How precision is traded for speed.
#[derive(Clone, Copy, Debug, PartialEq, Eq, Structural)]
pub enum ProcessingMode {
    /// Energy ratios of four sub-bands, no transform: the lowest latency.
    Performance,
    /// A mel spectrum of 32 bands, frames that overlap by half.
    Balanced,
    /// A mel spectrum of 32 bands behind a Hann window, frames that overlap by
    /// seven eighths: the highest precision.
    Deep,
}

impl ProcessingMode {
    /// The name shown to the user.
    pub fn label(&self) -> (r: &str)
        ensures
            r@ == match self {
                ProcessingMode::Performance => "性能模式"@,
                ProcessingMode::Balanced => "平衡模式"@,
                ProcessingMode::Deep => "深度模式"@,
            },
    {
        match self {
            ProcessingMode::Performance => "性能模式",
            ProcessingMode::Balanced => "平衡模式",
            ProcessingMode::Deep => "深度模式",
        }
    }

    /// The modes to choose from, each once, in the order of the menu.
    pub fn all() -> (r: &'static [ProcessingMode])
        ensures
            r@ == seq![
                ProcessingMode::Performance,
                ProcessingMode::Balanced,
                ProcessingMode::Deep,
            ],
            r@.no_duplicates(),
            forall|mode: ProcessingMode| r@.contains(mode),
    {
        proof {
            let menu = seq![
                ProcessingMode::Performance,
                ProcessingMode::Balanced,
                ProcessingMode::Deep,
            ];
            assert(menu[0] is Performance && menu[1] is Balanced && menu[2] is Deep);
            assert forall|mode: ProcessingMode| menu.contains(mode) by {
                assert(menu[0] == mode || menu[1] == mode || menu[2] == mode);
            }
        }
        &[ProcessingMode::Performance, ProcessingMode::Balanced, ProcessingMode::Deep]
    }

    /// The length of a frame in milliseconds.
    #[verifier::allow_in_spec]
    pub fn frame_duration_ms(&self) -> u32
        returns
            match self {
                ProcessingMode::Performance => 16u32,
                ProcessingMode::Balanced => 32u32,
                ProcessingMode::Deep => 46u32,
            },
    {
        match self {
            ProcessingMode::Performance => 16,
            ProcessingMode::Balanced => 32,
            ProcessingMode::Deep => 46,
        }
    }

    /// The share of a frame that the next frame repeats, in thousandths.
    #[verifier::allow_in_spec]
    pub fn overlap_ratio(&self) -> u32
        returns
            match self {
                ProcessingMode::Performance => 0u32,
                ProcessingMode::Balanced => 500u32,
                ProcessingMode::Deep => 875u32,
            },
    {
        match self {
            ProcessingMode::Performance => 0,
            ProcessingMode::Balanced => 500,
            ProcessingMode::Deep => 875,
        }
    }

    /// The similarity above which a frame matches a target, in thousandths.
    #[verifier::allow_in_spec]
    pub fn similarity_threshold(&self) -> u32
        returns
            match self {
                ProcessingMode::Performance => 700u32,
                ProcessingMode::Balanced => 650u32,
                ProcessingMode::Deep => 550u32,
            },
    {
        match self {
            ProcessingMode::Performance => 700,
            ProcessingMode::Balanced => 650,
            ProcessingMode::Deep => 550,
        }
    }

    /// The gain of a suppressed voice, in thousandths: silence.
    #[verifier::allow_in_spec]
    pub fn suppress_gain(&self) -> u32
        returns
            0u32,
    {
        0
    }

    /// The gain of an enhanced voice, in thousandths.
    #[verifier::allow_in_spec]
    pub fn enhance_gain(&self) -> u32
        returns
            match self {
                ProcessingMode::Performance => 2500u32,
                ProcessingMode::Balanced => 2000u32,
                ProcessingMode::Deep => 3000u32,
            },
    {
        match self {
            ProcessingMode::Performance => 2500,
            ProcessingMode::Balanced => 2000,
            ProcessingMode::Deep => 3000,
        }
    }

    /// The share of the previous gain in the next one, in thousandths: the
    /// larger, the slower the gain moves.
    #[verifier::allow_in_spec]
    pub fn smoothing_coeff(&self) -> u32
        returns
            match self {
                ProcessingMode::Performance => 700u32,
                ProcessingMode::Balanced => 600u32,
                ProcessingMode::Deep => 800u32,
            },
    {
        match self {
            ProcessingMode::Performance => 700,
            ProcessingMode::Balanced => 600,
            ProcessingMode::Deep => 800,
        }
    }

    /// The number of recent frames whose largest similarity counts.
    #[verifier::allow_in_spec]
    pub fn temporal_smooth_frames(&self) -> usize
        returns
            match self {
                ProcessingMode::Performance => 1usize,
                ProcessingMode::Balanced => 3usize,
                ProcessingMode::Deep => 5usize,
            },
    {
        match self {
            ProcessingMode::Performance => 1,
            ProcessingMode::Balanced => 3,
            ProcessingMode::Deep => 5,
        }
    }

    /// The number of targets that may be set up.
    #[verifier::allow_in_spec]
    pub fn max_targets(&self) -> usize
        returns
            match self {
                ProcessingMode::Performance => 1usize,
                ProcessingMode::Balanced => usize::MAX,
                ProcessingMode::Deep => usize::MAX,
            },
    {
        match self {
            ProcessingMode::Performance => 1,
            ProcessingMode::Balanced => usize::MAX,
            ProcessingMode::Deep => usize::MAX,
        }
    }

    /// Whether frames are analysed by a Fourier transform.
    #[verifier::allow_in_spec]
    pub fn uses_fft(&self) -> bool
        returns
            !(*self is Performance),
    {
        match self {
            ProcessingMode::Performance => false,
            _ => true,
        }
    }

    /// Whether a Hann window is laid over a frame before the transform.
    #[verifier::allow_in_spec]
    pub fn uses_window(&self) -> bool
        returns
            *self is Deep,
    {
        match self {
            ProcessingMode::Deep => true,
            _ => false,
        }
    }

    /// Whether processed frames are overlapped and added.
    #[verifier::allow_in_spec]
    pub fn uses_overlap(&self) -> bool
        returns
            !(*self is Performance),
    {
        match self {
            ProcessingMode::Performance => false,
            _ => true,
        }
    }
}

/// Frames are overlapped and added exactly where they overlap, and a window is
/// used only in front of a transform.
pub proof fn law_modes_are_consistent(mode: ProcessingMode)
    ensures
        mode.uses_overlap() <==> mode.overlap_ratio() > 0,
        mode.uses_window() ==> mode.uses_fft(),
        mode.overlap_ratio() < 1000,
        mode.smoothing_coeff() < 1000,
        mode.suppress_gain() < 1000 < mode.enhance_gain(),
        mode.temporal_smooth_frames() >= 1,
        mode.max_targets() >= 1,
{
}

} // verus!
