//! The dialogue in which the mode is chosen and the targets are recorded.

use vstd::prelude::*;

use crate::arithmetic::Analysis;
#[allow(unused_imports)]
use crate::arithmetic::exact_analysis;
#[allow(unused_imports)]
use crate::features::{features_of, silent, window_of, MEL_BANDS};
#[allow(unused_imports)]
use crate::framing::{frame_len, nth_frame};
use crate::mode::ProcessingMode;
#[allow(unused_imports)]
use crate::processor::{heard, Path};
use crate::reference::build_reference_features;
#[allow(unused_imports)]
use crate::reference::{law_references_fit_the_mode, spoken_features, thinned, MAX_REFERENCES};
#[allow(unused_imports)]
use crate::similarity_laws::{law_recorded_frames_are_recognised, strictly_ordered};
use crate::target::{TargetAction, TargetVoice};
#[allow(unused_imports)]
use crate::target::{cosine_of, rows, voices, Voice};
use crate::text::{same_text, to_lowercase, trim};
#[allow(unused_imports)]
use crate::text::{small, trimmed};

verus! {

/// The shortest recording, in samples, that features are taken from.
pub const MIN_RECORDING: usize = 128;

/// The mode with this number in the menu.
pub open spec fn numbered_mode(number: Seq<char>) -> Option<ProcessingMode> {
    if number == "1"@ {
        Some(ProcessingMode::Performance)
    } else if number == "2"@ {
        Some(ProcessingMode::Balanced)
    } else if number == "3"@ {
        Some(ProcessingMode::Deep)
    } else {
        None
    }
}

/// The action with this number in the menu.
pub open spec fn numbered_action(number: Seq<char>) -> Option<TargetAction> {
    if number == "1"@ {
        Some(TargetAction::Suppress)
    } else if number == "2"@ {
        Some(TargetAction::Enhance)
    } else {
        None
    }
}

/// The mode with this number in the menu.
pub fn mode_by_number(number: &str) -> (r: Option<ProcessingMode>)
    ensures
        r == numbered_mode(number@),
{
    if same_text(number, "1") {
        Some(ProcessingMode::Performance)
    } else if same_text(number, "2") {
        Some(ProcessingMode::Balanced)
    } else if same_text(number, "3") {
        Some(ProcessingMode::Deep)
    } else {
        None
    }
}

/// The action with this number in the menu.
pub fn action_by_number(number: &str) -> (r: Option<TargetAction>)
    ensures
        r == numbered_action(number@),
{
    if same_text(number, "1") {
        Some(TargetAction::Suppress)
    } else if same_text(number, "2") {
        Some(TargetAction::Enhance)
    } else {
        None
    }
}

/// Reads the choice of a mode; `None` where the line is none.
pub fn select_processing_mode(line: &str) -> (r: Option<ProcessingMode>)
    ensures
        r == numbered_mode(trimmed(line@)),
{
    mode_by_number(trim(line).as_str())
}

/// Reads the choice of an action; `None` where the line is none.
pub fn select_target_action(line: &str) -> (r: Option<TargetAction>)
    ensures
        r == numbered_action(trimmed(line@)),
{
    action_by_number(trim(line).as_str())
}

/// What the dialogue waits for.
#[derive(Debug)]
pub enum Step {
    /// Whether there is one more target.
    AskMore,
    /// The name of the target.
    AskName,
    /// What is to be done to the target.
    AskAction { name: String },
    /// A recording of the target.
    Record { name: String, action: TargetAction },
    /// Nothing: there are as many targets as the mode allows.
    Full,
    /// Nothing: the user has no more targets.
    Finished,
}

/// What the dialogue waits for.
pub enum Stage {
    AskMore,
    AskName,
    AskAction(Seq<char>),
    Record(Seq<char>, TargetAction),
    Full,
    Finished,
}

/// A target that has been set up.
pub struct Entry<T> {
    pub name: Seq<char>,
    pub action: TargetAction,
    pub reference: Seq<Seq<T>>,
}

/// The targets of a session while they are set up.
pub struct Roll<T> {
    pub mode: ProcessingMode,
    pub entries: Seq<Entry<T>>,
    pub stage: Stage,
}

impl Step {
    pub open spec fn view(&self) -> Stage {
        match self {
            Step::AskMore => Stage::AskMore,
            Step::AskName => Stage::AskName,
            Step::AskAction { name } => Stage::AskAction(name@),
            Step::Record { name, action } => Stage::Record(name@, *action),
            Step::Full => Stage::Full,
            Step::Finished => Stage::Finished,
        }
    }
}

/// The entries of a list of targets.
pub open spec fn entries<T>(targets: Seq<TargetVoice<T>>) -> Seq<Entry<T>> {
    targets.map_values(
        |t: TargetVoice<T>|
            Entry { name: t.name@, action: t.action, reference: rows(t.reference_features@) },
    )
}

/// What comes after a target has been entered or dropped.
pub open spec fn next_round(mode: ProcessingMode, entered: nat) -> Stage {
    if entered >= mode.max_targets() {
        Stage::Full
    } else {
        Stage::AskMore
    }
}

/// There are no more targets than the mode allows, and there is room for the one
/// that the dialogue is about.
pub open spec fn within_limit<T>(roll: Roll<T>) -> bool {
    match roll.stage {
        Stage::Full => roll.entries.len() == roll.mode.max_targets(),
        Stage::Finished => roll.entries.len() <= roll.mode.max_targets(),
        _ => roll.entries.len() < roll.mode.max_targets(),
    }
}

/// Where an answer leads, and whether it is one.  The answer is given without
/// the white space around it, and once more in lower case.
pub open spec fn answered(stage: Stage, text: Seq<char>, lowered: Seq<char>) -> (Stage, bool) {
    match stage {
        Stage::AskMore => if lowered == "y"@ {
            (Stage::AskName, true)
        } else {
            (Stage::Finished, true)
        },
        Stage::AskName => if text.len() == 0 {
            (Stage::AskMore, false)
        } else {
            (Stage::AskAction(text), true)
        },
        Stage::AskAction(name) => match numbered_action(text) {
            Some(action) => (Stage::Record(name, action), true),
            None => (stage, false),
        },
        _ => (stage, false),
    }
}

/// Where a recording leads, and whether it was long enough.
pub open spec fn entered<T, K: Analysis<T>>(
    k: K,
    roll: Roll<T>,
    audio: Seq<T>,
    sample_rate: u32,
) -> (Roll<T>, bool) {
    match roll.stage {
        Stage::Record(name, action) => if audio.len() < MIN_RECORDING {
            (Roll { stage: Stage::AskMore, ..roll }, false)
        } else {
            let entry = Entry {
                name,
                action,
                reference: thinned(spoken_features(k, roll.mode, sample_rate, audio)),
            };
            (
                Roll {
                    entries: roll.entries.push(entry),
                    stage: next_round(roll.mode, roll.entries.len() + 1),
                    ..roll
                },
                true,
            )
        },
        _ => (roll, false),
    }
}

/// The dialogue in which targets are set up.
pub struct Enrollment<T> {
    pub mode: ProcessingMode,
    pub targets: Vec<TargetVoice<T>>,
    pub step: Step,
}

impl<T> Enrollment<T> {
    pub open spec fn view(&self) -> Roll<T> {
        Roll { mode: self.mode, entries: entries(self.targets@), stage: self.step@ }
    }

    /// The start of the dialogue.
    pub fn new(mode: ProcessingMode) -> (r: Self)
        ensures
            r@ == (Roll::<T> { mode, entries: Seq::empty(), stage: Stage::AskMore }),
            within_limit(r@),
    {
        let r = Enrollment { mode, targets: Vec::new(), step: Step::AskMore };
        assert(r@.entries =~= Seq::empty());
        r
    }

    /// Takes a line of the user; `false` where it is no answer.
    pub fn answer(&mut self, line: &str) -> (r: bool)
        requires
            within_limit(old(self)@),
        ensures
            ({
                let text = trimmed(line@);
                let (stage, accepted) = answered(old(self)@.stage, text, small(text));
                &&& final(self)@ == (Roll { stage, ..old(self)@ })
                &&& r == accepted
            }),
            within_limit(final(self)@),
    {
        let text = trim(line);
        let lowered = to_lowercase(text.as_str());
        self.take_answer(text, lowered.as_str())
    }

    /// Takes an answer without the white space around it, and once more in lower
    /// case; `false` where it is none.
    pub fn take_answer(&mut self, text: String, lowered: &str) -> (r: bool)
        requires
            within_limit(old(self)@),
        ensures
            ({
                let (stage, accepted) = answered(old(self)@.stage, text@, lowered@);
                &&& final(self)@ == (Roll { stage, ..old(self)@ })
                &&& r == accepted
            }),
            within_limit(final(self)@),
    {
        match &self.step {
            Step::AskMore => {
                if same_text(lowered, "y") {
                    self.step = Step::AskName;
                } else {
                    self.step = Step::Finished;
                }
                true
            },
            Step::AskName => {
                if text.as_str().is_empty() {
                    self.step = Step::AskMore;
                    false
                } else {
                    self.step = Step::AskAction { name: text };
                    true
                }
            },
            Step::AskAction { name } => match action_by_number(text.as_str()) {
                Some(action) => {
                    let name = name.clone();
                    self.step = Step::Record { name, action };
                    true
                },
                None => false,
            },
            _ => false,
        }
    }
}

impl<T: Copy> Enrollment<T> {
    /// Takes the recording of a target; `false` where it is too short.
    pub fn recorded<K: Analysis<T>>(&mut self, k: &K, audio: &[T], sample_rate: u32) -> (r: bool)
        requires
            exact_analysis::<T, K>(*k),
            within_limit(old(self)@),
        ensures
            (final(self)@, r) == entered(*k, old(self)@, audio@, sample_rate),
            within_limit(final(self)@),
    {
        match &self.step {
            Step::Record { name, action } => {
                if audio.len() < MIN_RECORDING {
                    self.step = Step::AskMore;
                    return false;
                }
                let target = TargetVoice {
                    name: name.clone(),
                    action: *action,
                    reference_features: build_reference_features(k, audio, self.mode, sample_rate),
                };
                self.targets.push(target);
                assert(entries(self.targets@) =~= entered(
                    *k,
                    old(self)@,
                    audio@,
                    sample_rate,
                ).0.entries);
                if self.targets.len() >= self.mode.max_targets() {
                    self.step = Step::Full;
                } else {
                    self.step = Step::AskMore;
                }
                true
            },
            _ => false,
        }
    }
}

/// What the signal path takes from the entries of a roll.
pub open spec fn voices_of<T>(entries: Seq<Entry<T>>) -> Seq<Voice<T>> {
    entries.map_values(|e: Entry<T>| Voice { action: e.action, reference: e.reference })
}

/// What the dialogue enters is recognised by the stream.  A recording that is long enough
/// adds one entry, with the name and the action that were given, and leaves the others as
/// they are.  In a signal path of the same mode and sample rate whose targets are the
/// entries, every frame of the recording that is not silent, where none was thinned out, has
/// when it is heard again a newest similarity to the entry not below that of its features to
/// themselves.
pub proof fn law_enrolled_voices_are_recognised<T, K: Analysis<T>>(
    k: K,
    roll: Roll<T>,
    audio: Seq<T>,
    sample_rate: u32,
    p: Path<T>,
    i: nat,
)
    requires
        strictly_ordered::<T, K>(k),
        roll.stage is Record,
        audio.len() >= 128,
        p.mode == roll.mode,
        p.sample_rate == sample_rate,
        p.frame_size == frame_len(roll.mode, sample_rate),
        p.window == window_of(k, roll.mode, p.frame_size),
        p.targets == voices_of(entered(k, roll, audio, sample_rate).0.entries),
        spoken_features(k, roll.mode, sample_rate, audio).len() <= MAX_REFERENCES,
        i * p.frame_size + p.frame_size <= audio.len(),
        !silent(k, nth_frame(audio, p.frame_size, i)),
    ensures
        ({
            let (next, accepted) = entered(k, roll, audio, sample_rate);
            let last = roll.entries.len() as int;
            let frame = nth_frame(audio, p.frame_size, i);
            let features = features_of(k, p.mode, p.sample_rate, p.window, frame);
            &&& accepted
            &&& next.mode == roll.mode
            &&& next.entries.len() == last + 1
            &&& next.entries.take(last) == roll.entries
            &&& Stage::Record(next.entries[last].name, next.entries[last].action) == roll.stage
            &&& !k.below(heard(k, p, frame).history[0][last], cosine_of(k, features, features))
        }),
{
    let (next, accepted) = entered(k, roll, audio, sample_rate);
    let last = roll.entries.len() as int;
    assert(next.entries.take(last) =~= roll.entries);
    assert(p.targets[last].reference == next.entries[last].reference);
    law_recorded_frames_are_recognised(k, p, last, audio, i);
}

/// Every reference vector that a recording enters has as many values as the features of a
/// live frame in the mode of the roll: 32 with a transform and 4 without.
pub proof fn law_entries_fit_the_mode<T, K: Analysis<T>>(
    k: K,
    roll: Roll<T>,
    audio: Seq<T>,
    sample_rate: u32,
    live: Seq<T>,
    r: int,
)
    requires
        roll.stage is Record,
        audio.len() >= 128,
        0 <= r < entered(k, roll, audio, sample_rate).0.entries.last().reference.len(),
    ensures
        ({
            let reference = entered(k, roll, audio, sample_rate).0.entries.last().reference;
            let window = window_of(k, roll.mode, live.len());
            &&& reference[r].len() == (if roll.mode is Performance {
                4
            } else {
                32int
            })
            &&& reference[r].len() == features_of(k, roll.mode, sample_rate, window, live).len()
            &&& reference.len() <= 100
        }),
{
    law_references_fit_the_mode(k, roll.mode, sample_rate, audio, r);
}

/// A recording that is too short enters nothing, and the dialogue starts over.
pub proof fn law_short_recordings_enter_nothing<T, K: Analysis<T>>(
    k: K,
    roll: Roll<T>,
    audio: Seq<T>,
    sample_rate: u32,
)
    requires
        roll.stage is Record,
        audio.len() < 128,
    ensures
        ({
            let (next, accepted) = entered(k, roll, audio, sample_rate);
            &&& !accepted
            &&& next.entries == roll.entries
            &&& next.stage is AskMore
            &&& next.mode == roll.mode
        }),
{
}

/// The mode without a transform takes one target, and then the dialogue is over.
pub proof fn law_performance_takes_one_target<T>(roll: Roll<T>)
    requires
        roll.mode is Performance,
        within_limit(roll),
    ensures
        roll.entries.len() <= 1,
        roll.entries.len() == 1 ==> roll.stage is Full || roll.stage is Finished,
{
}

/// After a target has been entered the dialogue asks for one more, as long as the mode takes
/// more; only the mode without a transform stops after the first.
pub proof fn law_other_modes_ask_for_more(mode: ProcessingMode, entered: nat)
    requires
        1 <= entered < usize::MAX,
    ensures
        next_round(mode, entered) is Full <==> mode is Performance,
        !(mode is Performance) ==> next_round(mode, entered) is AskMore,
{
}

/// A name is taken as it was typed, without the white space around it, and an action by its
/// number; what is neither is asked for again, and a target without a name is dropped.
pub proof fn law_answers_lead_on(name: Seq<char>, text: Seq<char>, lowered: Seq<char>)
    ensures
        answered(Stage::AskMore, text, lowered).0 is AskName <==> lowered == "y"@,
        lowered != "y"@ ==> answered(Stage::AskMore, text, lowered).0 is Finished,
        text.len() > 0 ==> answered(Stage::AskName, text, lowered) == (Stage::AskAction(text), true),
        text.len() == 0 ==> answered(Stage::AskName, text, lowered) == (Stage::AskMore, false),
        text == "1"@ ==> answered(Stage::AskAction(name), text, lowered) == (
            Stage::Record(name, TargetAction::Suppress),
            true,
        ),
        text == "2"@ && text != "1"@ ==> answered(Stage::AskAction(name), text, lowered) == (
            Stage::Record(name, TargetAction::Enhance),
            true,
        ),
        text != "1"@ && text != "2"@ ==> answered(Stage::AskAction(name), text, lowered) == (
            Stage::AskAction(name),
            false,
        ),
{
}

/// The entries of a roll are its targets: for each its own name, action and reference
/// vectors, in their order.
pub proof fn law_entries_are_the_targets<T>(targets: Seq<TargetVoice<T>>, t: int, r: int)
    requires
        0 <= t < targets.len(),
        0 <= r < targets[t].reference_features@.len(),
    ensures
        entries(targets).len() == targets.len(),
        entries(targets)[t].name == targets[t].name@,
        entries(targets)[t].action == targets[t].action,
        entries(targets)[t].reference.len() == targets[t].reference_features@.len(),
        entries(targets)[t].reference[r] == targets[t].reference_features@[r]@,
        voices_of(entries(targets)) == voices(targets),
{
    assert(voices_of(entries(targets)) =~= voices(targets));
}

/// The menu has three modes, and nothing but their numbers chooses one.
pub proof fn law_the_menu_has_three_modes(number: Seq<char>)
    ensures
        numbered_mode(number) is Some <==> number == "1"@ || number == "2"@ || number == "3"@,
        numbered_mode("1"@) == Some(ProcessingMode::Performance),
        numbered_mode("2"@) == Some(ProcessingMode::Balanced),
        numbered_mode("3"@) == Some(ProcessingMode::Deep),
{
    reveal_strlit("1");
    reveal_strlit("2");
    reveal_strlit("3");
    assert("1"@[0] == '1' && "2"@[0] == '2' && "3"@[0] == '3');
}

} // verus!
