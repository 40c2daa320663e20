//! How detection confidence affects the tracks.

use crate::binary64::Binary64;
use vstd::prelude::*;

verus! {

/// Determines how detection confidence affects track lifecycle.
#[derive(Clone, Copy, Debug, PartialEq, Eq, Structural)]
pub enum SimpleSortConfidenceMode {
    /// Every detection can match an existing track or create a new one.
    All,
    /// Only detections at or above the high-confidence threshold are used.
    HighOnly,
    /// High-confidence detections are associated first and may create tracks.
    /// Lower-confidence detections get a second association pass against still
    /// unmatched tracks, but never create tracks.
    TwoStage,
}

impl Default for SimpleSortConfidenceMode {
    fn default() -> (mode: Self)
        ensures
            mode == SimpleSortConfidenceMode::All,
    {
        SimpleSortConfidenceMode::All
    }
}

/// The mode that a name stands for, if any.
pub open spec fn mode_named(name: Seq<char>) -> Option<SimpleSortConfidenceMode> {
    if name == "all"@ {
        Some(SimpleSortConfidenceMode::All)
    } else if name == "high_only"@ {
        Some(SimpleSortConfidenceMode::HighOnly)
    } else if name == "two_stage"@ {
        Some(SimpleSortConfidenceMode::TwoStage)
    } else {
        None
    }
}

/// Why a tracker cannot be set up.
#[derive(Clone, Copy, Debug, PartialEq, Eq, Structural)]
pub enum OptionsError {
    /// The IoU threshold is not in [0, 1].
    IouThreshold,
    /// The confidence mode is none of `all`, `high_only` and `two_stage`.
    ConfidenceMode,
    /// The high-confidence threshold is not in [0, 1].
    HighConfidenceThreshold,
}

impl SimpleSortConfidenceMode {
    /// The mode with the given name.
    pub fn from_name(name: &str) -> (mode: Option<SimpleSortConfidenceMode>)
        ensures
            mode == mode_named(name@),
    {
        let name = name.to_owned();
        if name == "all".to_owned() {
            Some(SimpleSortConfidenceMode::All)
        } else if name == "high_only".to_owned() {
            Some(SimpleSortConfidenceMode::HighOnly)
        } else if name == "two_stage".to_owned() {
            Some(SimpleSortConfidenceMode::TwoStage)
        } else {
            None
        }
    }

    /// Whether a detection of this confidence is associated first and may
    /// create a track.
    pub open spec fn primary(self, confidence: Binary64, threshold: Binary64) -> bool {
        self == SimpleSortConfidenceMode::All || confidence.at_least(threshold)
    }

    /// Whether a detection of this confidence only gets the second association
    /// pass.
    pub open spec fn secondary(self, confidence: Binary64, threshold: Binary64) -> bool {
        self == SimpleSortConfidenceMode::TwoStage && !confidence.at_least(threshold)
    }

    pub fn is_primary(self, confidence: Binary64, threshold: Binary64) -> (result: bool)
        ensures
            result == self.primary(confidence, threshold),
            result <==> self == SimpleSortConfidenceMode::All || confidence.at_least(threshold),
    {
        self == SimpleSortConfidenceMode::All || confidence.ge(threshold)
    }

    pub fn is_secondary(self, confidence: Binary64, threshold: Binary64) -> (result: bool)
        ensures
            result == self.secondary(confidence, threshold),
            result <==> self == SimpleSortConfidenceMode::TwoStage && !confidence.at_least(
                threshold,
            ),
    {
        self == SimpleSortConfidenceMode::TwoStage && !confidence.ge(threshold)
    }
}

/// The names of the three modes stand for three different modes, and no other
/// name stands for any.
pub proof fn lemma_mode_names()
    ensures
        mode_named("all"@) == Some(SimpleSortConfidenceMode::All),
        mode_named("high_only"@) == Some(SimpleSortConfidenceMode::HighOnly),
        mode_named("two_stage"@) == Some(SimpleSortConfidenceMode::TwoStage),
        forall|name: Seq<char>|
            name != "all"@ && name != "high_only"@ && name != "two_stage"@ ==> (
            #[trigger] mode_named(name)) is None,
{
    reveal_strlit("all");
    reveal_strlit("high_only");
    reveal_strlit("two_stage");
    assert("high_only"@[0] == 'h');
    assert("two_stage"@[0] == 't');
    assert("all"@[0] == 'a');
}

} // verus!
