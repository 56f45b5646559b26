//! The voices that are looked for, and how alike a frame is to them.

use vstd::prelude::*;

use crate::arithmetic::{dot, maximum, Analysis};
#[allow(unused_imports)]
use crate::arithmetic::{energy, exact_analysis, inner_product, larger};
use crate::features::negligible_value;
#[allow(unused_imports)]
use crate::features::negligible;

verus! {

/// What is done to a voice.
#[derive(Clone, Copy, Debug, PartialEq, Eq, Structural)]
pub enum TargetAction {
    /// Frames that match the voice are silenced.
    Suppress,
    /// Frames that match the voice are amplified.
    Enhance,
}

impl TargetAction {
    /// The name shown to the user.
    pub fn label(&self) -> (r: &str)
        ensures
            r@ == match self {
                TargetAction::Suppress => "消除"@,
                TargetAction::Enhance => "增强"@,
            },
    {
        match self {
            TargetAction::Suppress => "消除",
            TargetAction::Enhance => "增强",
        }
    }
}

/// A voice to be suppressed or enhanced.
#[derive(Clone, Debug)]
pub struct TargetVoice<T> {
    /// The name of the voice.
    pub name: String,
    /// What is done to it.
    pub action: TargetAction,
    /// The features of the voice, one vector for each frame of a recording.
    pub reference_features: Vec<Vec<T>>,
}

/// The contents of a list of vectors.
pub open spec fn rows<T>(vectors: Seq<Vec<T>>) -> Seq<Seq<T>> {
    vectors.map_values(|v: Vec<T>| v@)
}

/// What of a target decides over a frame.
pub struct Voice<T> {
    pub action: TargetAction,
    pub reference: Seq<Seq<T>>,
}

/// What of each target decides over a frame.
pub open spec fn voices<T>(targets: Seq<TargetVoice<T>>) -> Seq<Voice<T>> {
    targets.map_values(
        |t: TargetVoice<T>| Voice { action: t.action, reference: rows(t.reference_features@) },
    )
}

/// The cosine of the angle between two vectors; 0 where they differ in length
/// or one of them has next to no length.
pub open spec fn cosine_of<T, K: Analysis<T>>(k: K, a: Seq<T>, b: Seq<T>) -> T {
    let norm_a = k.root(energy(k, a));
    let norm_b = k.root(energy(k, b));
    if a.len() != b.len() || a.len() == 0 {
        k.num(0)
    } else if k.below(norm_a, negligible(k)) || k.below(norm_b, negligible(k)) {
        k.num(0)
    } else {
        k.over(inner_product(k, a, b), k.times(norm_a, norm_b))
    }
}

/// The largest similarity of a feature vector to any of a set of references.  One
/// that does not compare, not even with itself, is passed over.
pub open spec fn highest<T, K: Analysis<T>>(
    k: K,
    features: Seq<T>,
    reference: Seq<Seq<T>>,
) -> Option<T>
    decreases reference.len(),
{
    if reference.len() == 0 {
        None
    } else {
        let similarity = cosine_of(k, features, reference.last());
        match highest(k, features, reference.drop_last()) {
            Some(best) => Some(larger(k, best, similarity)),
            None => if k.reaches(similarity, similarity) {
                Some(similarity)
            } else {
                None
            },
        }
    }
}

/// The largest similarity of a feature vector to any of a set of references, and 0
/// where there is none that compares.
pub open spec fn best_match<T, K: Analysis<T>>(
    k: K,
    features: Seq<T>,
    reference: Seq<Seq<T>>,
) -> T {
    match highest(k, features, reference) {
        Some(best) => best,
        None => k.num(0),
    }
}

/// The similarities of a feature vector to all voices.
pub open spec fn matches_of<T, K: Analysis<T>>(
    k: K,
    features: Seq<T>,
    targets: Seq<Voice<T>>,
) -> Seq<T> {
    Seq::new(targets.len(), |t: int| best_match(k, features, targets[t].reference))
}

/// The cosine similarity of two feature vectors.
pub fn cosine_similarity<T: Copy, K: Analysis<T>>(k: &K, a: &[T], b: &[T]) -> (r: T)
    requires
        exact_analysis::<T, K>(*k),
    ensures
        r == cosine_of(*k, a@, b@),
{
    if a.len() != b.len() || a.len() == 0 {
        return k.number(0);
    }
    let product = dot(k, a, b);
    let norm_a = k.sqrt(dot(k, a, a));
    let norm_b = k.sqrt(dot(k, b, b));
    let floor = negligible_value(k);
    if k.less(norm_a, floor) || k.less(norm_b, floor) {
        return k.number(0);
    }
    k.quotient(product, k.product(norm_a, norm_b))
}

/// The largest similarity of a feature vector to any of a set of references, and 0
/// where there is none that compares.
pub fn compute_max_similarity<T: Copy, K: Analysis<T>>(
    k: &K,
    frame_features: &[T],
    reference: &Vec<Vec<T>>,
) -> (r: T)
    requires
        exact_analysis::<T, K>(*k),
    ensures
        r == best_match(*k, frame_features@, rows(reference@)),
{
    let ghost all = rows(reference@);
    let mut best: Option<T> = None;
    let mut i: usize = 0;
    while i < reference.len()
        invariant
            exact_analysis::<T, K>(*k),
            i <= reference@.len(),
            all == rows(reference@),
            best == highest(*k, frame_features@, all.take(i as int)),
        decreases reference@.len() - i,
    {
        assert(all.take(i + 1).drop_last() =~= all.take(i as int));
        let similarity = cosine_similarity(k, frame_features, reference[i].as_slice());
        best = match best {
            Some(so_far) => Some(maximum(k, so_far, similarity)),
            None => if k.at_least(similarity, similarity) {
                Some(similarity)
            } else {
                None
            },
        };
        i += 1;
    }
    assert(all.take(i as int) =~= all);
    match best {
        Some(so_far) => so_far,
        None => k.number(0),
    }
}

/// The similarities of a feature vector to all targets.
pub fn match_targets<T: Copy, K: Analysis<T>>(
    k: &K,
    frame_features: &[T],
    targets: &Vec<TargetVoice<T>>,
) -> (r: Vec<T>)
    requires
        exact_analysis::<T, K>(*k),
    ensures
        r@ == matches_of(*k, frame_features@, voices(targets@)),
        r@.len() == targets@.len(),
{
    let mut similarities: Vec<T> = Vec::new();
    let mut t: usize = 0;
    while t < targets.len()
        invariant
            exact_analysis::<T, K>(*k),
            t <= targets@.len(),
            similarities@ =~= matches_of(*k, frame_features@, voices(targets@)).take(t as int),
        decreases targets@.len() - t,
    {
        let similarity = compute_max_similarity(
            k,
            frame_features,
            &targets[t].reference_features,
        );
        similarities.push(similarity);
        t += 1;
    }
    similarities
}

/// What decides over a frame is what the targets hold: for each its own action and all of
/// its own reference vectors, in their order.
pub proof fn law_voices_are_those_of_the_targets<T>(
    targets: Seq<TargetVoice<T>>,
    t: int,
    r: int,
)
    requires
        0 <= t < targets.len(),
        0 <= r < targets[t].reference_features@.len(),
    ensures
        voices(targets).len() == targets.len(),
        voices(targets)[t].action == targets[t].action,
        voices(targets)[t].reference.len() == targets[t].reference_features@.len(),
        voices(targets)[t].reference[r] == targets[t].reference_features@[r]@,
{
}

} // verus!
