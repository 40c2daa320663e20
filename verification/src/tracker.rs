//! The single-stream tracker.
//!
//! Boxes and their motion are floating-point matters of the caller, who
//! predicts every live track, measures its overlap with every detection, and
//! hands the overlaps in. What a frame does to the tracks is decided here.

use crate::association::{
    assign_detections, association, costs_between, is_association, lemma_association,
    lemma_found_association, overlaps_known,
};
use crate::binary64::Binary64;
use crate::confidence::{mode_named, OptionsError, SimpleSortConfidenceMode};
use crate::matrix::{disjoint_pairs, matrix, width};
use crate::select::{
    ascending, at_places, lemma_select, lemma_select_again, lemma_select_all,
    lemma_select_congruent, lemma_select_fewer, select,
};
use crate::track::{SimpleSortDetection, SimpleSortTrack, TrackRecord};
use vstd::prelude::*;

verus! {

/// The bits of 0.8, the high-confidence threshold where none is given.
pub const DEFAULT_HIGH_CONFIDENCE_BITS: u64 = 0x3fe9_9999_9999_999a;

/// What a tracker is: its settings, the next identity, and its live tracks in
/// the order in which they were created.
#[verifier::ext_equal]
pub struct TrackerState {
    pub max_age: usize,
    pub min_hits: usize,
    pub iou_threshold: Binary64,
    pub confidence_mode: SimpleSortConfidenceMode,
    pub high_confidence_threshold: Binary64,
    pub next_id: u64,
    pub tracks: Seq<TrackRecord>,
}

/// What one frame did to the tracks of a tracker.
#[derive(Clone, Debug)]
pub struct FrameUpdate {
    /// The (track, detection) pairs of the first association pass. Tracks are
    /// numbered by their place before the frame.
    pub first_matches: Vec<(usize, usize)>,
    /// Those of the second pass, for low-confidence detections.
    pub second_matches: Vec<(usize, usize)>,
    /// The detections that created a track, in the order of creation.
    pub created: Vec<usize>,
    /// The tracks that live on, by their place among the tracks before the
    /// frame followed by the created ones.
    pub kept: Vec<usize>,
    /// The tracks observed in this frame that are to be reported.
    pub reported: Vec<SimpleSortTrack>,
}

/// The detection that `matches` gives to track `track`, if any.
pub open spec fn detection_of(matches: Seq<(usize, usize)>, track: int) -> Option<usize>
    decreases matches.len(),
{
    if matches.len() == 0 {
        None
    } else if matches.last().0 == track {
        Some(matches.last().1)
    } else {
        detection_of(matches.drop_last(), track)
    }
}

/// Some pair of `matches` holds track `track`.
pub open spec fn track_matched(matches: Seq<(usize, usize)>, track: int) -> bool {
    exists|k: int| 0 <= k < matches.len() && (#[trigger] matches[k]).0 == track
}

/// Some pair of `matches` holds detection `detection`.
pub open spec fn detection_matched(matches: Seq<(usize, usize)>, detection: int) -> bool {
    exists|k: int| 0 <= k < matches.len() && (#[trigger] matches[k]).1 == detection
}

/// A value from 0 to 1 for each of `tracks` rows and `detections` columns.
pub open spec fn overlaps_shaped(
    overlaps: Seq<Seq<Binary64>>,
    tracks: nat,
    detections: nat,
) -> bool {
    &&& overlaps.len() == tracks
    &&& forall|t: int| 0 <= t < tracks ==> (#[trigger] overlaps[t]).len() == detections
    &&& forall|t: int, d: int|
        0 <= t < tracks && 0 <= d < detections ==> (#[trigger] overlaps[t][d]).in_unit_interval()
}

impl TrackerState {
    /// A tracker with these settings and no tracks.
    pub open spec fn fresh(
        max_age: usize,
        min_hits: usize,
        iou_threshold: Binary64,
        starting_id: u64,
        confidence_mode: SimpleSortConfidenceMode,
        high_confidence_threshold: Binary64,
    ) -> TrackerState {
        TrackerState {
            max_age,
            min_hits,
            iou_threshold,
            confidence_mode,
            high_confidence_threshold,
            next_id: starting_id,
            tracks: Seq::empty(),
        }
    }

    /// The tracker without its tracks, with another next identity.
    pub open spec fn restarted(self, starting_id: u64) -> TrackerState {
        TrackerState { next_id: starting_id, tracks: Seq::empty(), ..self }
    }

    /// Thresholds are in range, and no track is older than it may be.
    pub open spec fn wf(self) -> bool {
        &&& self.iou_threshold.in_unit_interval()
        &&& self.high_confidence_threshold.in_unit_interval()
        &&& self.tracks.len() <= usize::MAX
        &&& forall|t: int|
            0 <= t < self.tracks.len() ==> (#[trigger] self.tracks[t]).consistent()
                && self.tracks[t].time_since_update <= self.max_age
    }

    pub open spec fn is_primary(self, detection: SimpleSortDetection) -> bool {
        self.confidence_mode.primary(detection.confidence, self.high_confidence_threshold)
    }

    pub open spec fn is_secondary(self, detection: SimpleSortDetection) -> bool {
        self.confidence_mode.secondary(detection.confidence, self.high_confidence_threshold)
    }

    /// The detections of the first association pass.
    pub open spec fn primary(self, detections: Seq<SimpleSortDetection>) -> Seq<usize> {
        select(detections.len(), |d: int| self.is_primary(detections[d]))
    }

    /// The detections of the second association pass.
    pub open spec fn secondary(self, detections: Seq<SimpleSortDetection>) -> Seq<usize> {
        select(detections.len(), |d: int| self.is_secondary(detections[d]))
    }

    /// The tracks that `matches` leaves out.
    pub open spec fn unmatched(self, matches: Seq<(usize, usize)>) -> Seq<usize> {
        select(self.tracks.len(), |t: int| !track_matched(matches, t))
    }

    /// All tracks.
    pub open spec fn every_track(self) -> Seq<usize> {
        select(self.tracks.len(), |t: int| true)
    }

    /// The matches of the first pass: all tracks with the primary detections.
    pub open spec fn first_pass(
        self,
        detections: Seq<SimpleSortDetection>,
        overlaps: Seq<Seq<Binary64>>,
    ) -> Seq<(usize, usize)> {
        association(
            overlaps,
            self.every_track(),
            self.primary(detections),
            self.iou_threshold,
        )
    }

    /// The matches of the second pass, if there is one: the tracks that the
    /// first pass left with the secondary detections.
    pub open spec fn second_pass(
        self,
        detections: Seq<SimpleSortDetection>,
        overlaps: Seq<Seq<Binary64>>,
    ) -> Seq<(usize, usize)> {
        if self.confidence_mode == SimpleSortConfidenceMode::TwoStage {
            association(
                overlaps,
                self.unmatched(self.first_pass(detections, overlaps)),
                self.secondary(detections),
                self.iou_threshold,
            )
        } else {
            Seq::empty()
        }
    }

    /// `first` and `second` are the matches of the two passes, each of them
    /// what a cheapest assignment leaves above the threshold.
    pub open spec fn associates(
        self,
        detections: Seq<SimpleSortDetection>,
        overlaps: Seq<Seq<Binary64>>,
        first: Seq<(usize, usize)>,
        second: Seq<(usize, usize)>,
    ) -> bool {
        &&& first == self.first_pass(detections, overlaps)
        &&& second == self.second_pass(detections, overlaps)
        &&& is_association(
            overlaps,
            self.every_track(),
            self.primary(detections),
            self.iou_threshold,
            first,
        )
        &&& self.confidence_mode == SimpleSortConfidenceMode::TwoStage ==> is_association(
            overlaps,
            self.unmatched(first),
            self.secondary(detections),
            self.iou_threshold,
            second,
        )
    }

    /// Track `t` after the frame: a frame older, and observed if it is matched.
    pub open spec fn advanced(
        self,
        detections: Seq<SimpleSortDetection>,
        matches: Seq<(usize, usize)>,
        t: int,
    ) -> TrackRecord {
        match detection_of(matches, t) {
            Some(d) => self.tracks[t].predicted().observed(detections[d as int]),
            None => self.tracks[t].predicted(),
        }
    }

    /// The primary detections that the first pass left unmatched.
    pub open spec fn created(
        self,
        detections: Seq<SimpleSortDetection>,
        first: Seq<(usize, usize)>,
    ) -> Seq<usize> {
        select(
            detections.len(),
            |d: int| self.is_primary(detections[d]) && !detection_matched(first, d),
        )
    }

    /// The tracks of before, advanced, and then the created ones, with the
    /// next identities in turn.
    pub open spec fn all_tracks(
        self,
        detections: Seq<SimpleSortDetection>,
        first: Seq<(usize, usize)>,
        second: Seq<(usize, usize)>,
    ) -> Seq<TrackRecord> {
        let created = self.created(detections, first);
        Seq::new(self.tracks.len(), |t: int| self.advanced(detections, first + second, t))
            + Seq::new(
            created.len(),
            |k: int|
                TrackRecord::started((self.next_id + k) as u64, detections[created[k] as int]),
        )
    }

    /// Those of all tracks that were observed within the last `max_age` frames.
    pub open spec fn kept(
        self,
        detections: Seq<SimpleSortDetection>,
        first: Seq<(usize, usize)>,
        second: Seq<(usize, usize)>,
    ) -> Seq<usize> {
        let all = self.all_tracks(detections, first, second);
        select(all.len(), |k: int| all[k].time_since_update <= self.max_age)
    }

    /// The tracker after a frame with these matches.
    pub open spec fn after_frame(
        self,
        detections: Seq<SimpleSortDetection>,
        first: Seq<(usize, usize)>,
        second: Seq<(usize, usize)>,
    ) -> TrackerState {
        let all = self.all_tracks(detections, first, second);
        let kept = self.kept(detections, first, second);
        TrackerState {
            next_id: (self.next_id + self.created(detections, first).len()) as u64,
            tracks: Seq::new(kept.len(), |k: int| all[kept[k] as int]),
            ..self
        }
    }

    /// The places of the tracks that `frames` frames without detections leave.
    pub open spec fn idle_places(self, frames: nat) -> Seq<usize> {
        select(
            self.tracks.len(),
            |t: int| self.tracks[t].time_since_update + frames <= self.max_age,
        )
    }

    /// The tracker after `frames` frames without detections.
    pub open spec fn idle(self, frames: nat) -> TrackerState {
        let places = self.idle_places(frames);
        TrackerState {
            tracks: Seq::new(
                places.len(),
                |k: int| self.tracks[places[k] as int].waited(frames),
            ),
            ..self
        }
    }

    /// The counters have room for `frames` frames without detections.
    pub open spec fn can_wait(self, frames: nat) -> bool {
        frames > 0 ==> forall|t: int|
            0 <= t < self.tracks.len() ==> (#[trigger] self.tracks[t]).age + frames <= usize::MAX
    }

    /// The places of the tracks to report.
    pub open spec fn reported_places(self) -> Seq<usize> {
        select(self.tracks.len(), |t: int| self.tracks[t].reportable(self.min_hits))
    }

    /// The tracks to report.
    pub open spec fn reported(self) -> Seq<SimpleSortTrack> {
        let places = self.reported_places();
        Seq::new(places.len(), |k: int| self.tracks[places[k] as int].outcome(places[k]))
    }

    /// One more frame can be counted for every track, and one more detection
    /// for every matched one.
    pub open spec fn counts_on(self, matches: Seq<(usize, usize)>) -> bool {
        forall|t: int|
            0 <= t < self.tracks.len() ==> (#[trigger] self.tracks[t]).age < usize::MAX && (
            track_matched(matches, t) ==> self.tracks[t].hits < usize::MAX)
    }

    /// The counters and the identities have room for a frame.
    pub open spec fn has_room(
        self,
        detections: Seq<SimpleSortDetection>,
        overlaps: Seq<Seq<Binary64>>,
    ) -> bool {
        let first = self.first_pass(detections, overlaps);
        let second = self.second_pass(detections, overlaps);
        &&& self.next_id + self.created(detections, first).len() <= u64::MAX
        &&& self.counts_on(first + second)
    }

    /// The counters and the identities have room for a frame, even if every
    /// primary detection creates a track.
    pub open spec fn has_ample_room(self, detections: Seq<SimpleSortDetection>) -> bool {
        &&& self.next_id + self.primary(detections).len() <= u64::MAX
        &&& forall|t: int| 0 <= t < self.tracks.len() ==> (#[trigger] self.tracks[t]).counts_on()
    }
}

/// Stateful single-stream tracker.
#[derive(Clone, Debug)]
pub struct SimpleSort {
    max_age: usize,
    min_hits: usize,
    iou_threshold: Binary64,
    confidence_mode: SimpleSortConfidenceMode,
    high_confidence_threshold: Binary64,
    next_id: u64,
    tracks: Vec<TrackRecord>,
}

impl View for SimpleSort {
    type V = TrackerState;

    closed spec fn view(&self) -> TrackerState {
        TrackerState {
            max_age: self.max_age,
            min_hits: self.min_hits,
            iou_threshold: self.iou_threshold,
            confidence_mode: self.confidence_mode,
            high_confidence_threshold: self.high_confidence_threshold,
            next_id: self.next_id,
            tracks: self.tracks@,
        }
    }
}

impl SimpleSort {
    /// A tracker that uses every detection.
    pub fn new(
        max_age: usize,
        min_hits: usize,
        iou_threshold: Binary64,
        starting_id: u64,
    ) -> (tracker: SimpleSort)
        requires
            iou_threshold.in_unit_interval(),
        ensures
            tracker@.wf(),
            tracker@ == TrackerState::fresh(
                max_age,
                min_hits,
                iou_threshold,
                starting_id,
                SimpleSortConfidenceMode::All,
                Binary64 { bits: DEFAULT_HIGH_CONFIDENCE_BITS },
            ),
            tracker@.max_age == max_age && tracker@.min_hits == min_hits,
            tracker@.iou_threshold == iou_threshold && tracker@.next_id == starting_id,
            tracker@.confidence_mode == SimpleSortConfidenceMode::All,
            tracker@.high_confidence_threshold.bits == 0x3fe9_9999_9999_999a,
            tracker@.tracks.len() == 0,
    {
        let high_confidence_threshold = Binary64::from_bits(DEFAULT_HIGH_CONFIDENCE_BITS);
        proof {
            crate::binary64::lemma_below_one(high_confidence_threshold);
        }
        SimpleSort::new_with_confidence(
            max_age,
            min_hits,
            iou_threshold,
            starting_id,
            SimpleSortConfidenceMode::All,
            high_confidence_threshold,
        )
    }

    /// A tracker with the given use of confidences.
    pub fn new_with_confidence(
        max_age: usize,
        min_hits: usize,
        iou_threshold: Binary64,
        starting_id: u64,
        confidence_mode: SimpleSortConfidenceMode,
        high_confidence_threshold: Binary64,
    ) -> (tracker: SimpleSort)
        requires
            iou_threshold.in_unit_interval(),
            high_confidence_threshold.in_unit_interval(),
        ensures
            tracker@.wf(),
            tracker@ == TrackerState::fresh(
                max_age,
                min_hits,
                iou_threshold,
                starting_id,
                confidence_mode,
                high_confidence_threshold,
            ),
            tracker@.max_age == max_age && tracker@.min_hits == min_hits,
            tracker@.iou_threshold == iou_threshold && tracker@.next_id == starting_id,
            tracker@.confidence_mode == confidence_mode,
            tracker@.high_confidence_threshold == high_confidence_threshold,
            tracker@.tracks.len() == 0,
    {
        SimpleSort {
            max_age,
            min_hits,
            iou_threshold,
            confidence_mode,
            high_confidence_threshold,
            next_id: starting_id,
            tracks: Vec::new(),
        }
    }

    /// A tracker from options as a user gives them: the first of the IoU
    /// threshold, the name of the mode and the high-confidence threshold that
    /// is not acceptable is the error.
    pub fn from_options(
        max_age: usize,
        min_hits: usize,
        iou_threshold: Binary64,
        starting_id: u64,
        confidence_mode: &str,
        high_confidence_threshold: Binary64,
    ) -> (result: Result<SimpleSort, OptionsError>)
        ensures
            match result {
                Ok(tracker) => {
                    &&& iou_threshold.in_unit_interval()
                    &&& mode_named(confidence_mode@) is Some
                    &&& high_confidence_threshold.in_unit_interval()
                    &&& tracker@.wf()
                    &&& tracker@ == TrackerState::fresh(
                        max_age,
                        min_hits,
                        iou_threshold,
                        starting_id,
                        mode_named(confidence_mode@)->0,
                        high_confidence_threshold,
                    )
                },
                Err(OptionsError::IouThreshold) => !iou_threshold.in_unit_interval(),
                Err(OptionsError::ConfidenceMode) => iou_threshold.in_unit_interval()
                    && mode_named(confidence_mode@) is None,
                Err(OptionsError::HighConfidenceThreshold) => iou_threshold.in_unit_interval()
                    && mode_named(confidence_mode@) is Some
                    && !high_confidence_threshold.in_unit_interval(),
            },
    {
        if !iou_threshold.is_unit() {
            return Err(OptionsError::IouThreshold);
        }
        match SimpleSortConfidenceMode::from_name(confidence_mode) {
            None => Err(OptionsError::ConfidenceMode),
            Some(mode) => {
                if !high_confidence_threshold.is_unit() {
                    return Err(OptionsError::HighConfidenceThreshold);
                }
                Ok(
                    SimpleSort::new_with_confidence(
                        max_age,
                        min_hits,
                        iou_threshold,
                        starting_id,
                        mode,
                        high_confidence_threshold,
                    ),
                )
            },
        }
    }

    pub fn active_track_count(&self) -> (count: usize)
        ensures
            count == self@.tracks.len(),
    {
        self.tracks.len()
    }

    pub fn next_id(&self) -> (next_id: u64)
        ensures
            next_id == self@.next_id,
    {
        self.next_id
    }

    pub fn set_next_id(&mut self, next_id: u64)
        ensures
            final(self)@ == (TrackerState { next_id, ..old(self)@ }),
    {
        self.next_id = next_id;
    }

    /// Forgets all tracks and starts again with the given identity.
    pub fn reset(&mut self, starting_id: u64)
        ensures
            final(self)@ == old(self)@.restarted(starting_id),
            final(self)@ == (TrackerState {
                next_id: starting_id,
                tracks: Seq::empty(),
                ..old(self)@
            }),
    {
        self.tracks.clear();
        self.next_id = starting_id;
    }

    /// The live tracks, in the order in which they were created.
    pub fn tracks(&self) -> (tracks: &Vec<TrackRecord>)
        ensures
            tracks@ == self@.tracks,
    {
        &self.tracks
    }
}

pub proof fn lemma_detection_of(matches: Seq<(usize, usize)>, track: int)
    ensures
        detection_of(matches, track) is Some <==> track_matched(matches, track),
        forall|k: int|
            0 <= k < matches.len() && (#[trigger] matches[k]).0 == track && (forall|l: int|
                k < l < matches.len() ==> (#[trigger] matches[l]).0 != track) ==> detection_of(
                matches,
                track,
            ) == Some(matches[k].1),
    decreases matches.len(),
{
    if matches.len() > 0 {
        let front = matches.drop_last();
        lemma_detection_of(front, track);
        let z = matches.len() - 1;
        if track_matched(matches, track) && matches[z].0 != track {
            let k = choose|k: int| 0 <= k < matches.len() && (#[trigger] matches[k]).0 == track;
            assert(front[k].0 == track);
        }
        if track_matched(front, track) {
            let k = choose|k: int| 0 <= k < front.len() && (#[trigger] front[k]).0 == track;
            assert(matches[k].0 == track);
        }
        assert(matches[z] == matches.last());
        assert forall|k: int|
            0 <= k < matches.len() && (#[trigger] matches[k]).0 == track && (forall|l: int|
                k < l < matches.len() ==> (#[trigger] matches[l]).0 != track) implies detection_of(
            matches,
            track,
        ) == Some(matches[k].1) by {
            if k < z {
                assert(matches[z].0 != track);
                assert(front[k] == matches[k]);
                assert forall|l: int| k < l < front.len() implies (#[trigger] front[l]).0
                    != track by {
                    assert(front[l] == matches[l]);
                }
            }
        }
    }
}

/// A track is matched by two lists of pairs if it is by one of them.
proof fn lemma_track_matched_adds(
    first: Seq<(usize, usize)>,
    second: Seq<(usize, usize)>,
    track: int,
)
    ensures
        track_matched(first + second, track) <==> track_matched(first, track) || track_matched(
            second,
            track,
        ),
{
    let both = first + second;
    if track_matched(first, track) {
        let k = choose|k: int| 0 <= k < first.len() && (#[trigger] first[k]).0 == track;
        assert(both[k].0 == track);
    }
    if track_matched(second, track) {
        let k = choose|k: int| 0 <= k < second.len() && (#[trigger] second[k]).0 == track;
        assert(both[first.len() + k].0 == track);
    }
    if track_matched(both, track) {
        let k = choose|k: int| 0 <= k < both.len() && (#[trigger] both[k]).0 == track;
        if k < first.len() {
            assert(first[k].0 == track);
        } else {
            assert(second[k - first.len()].0 == track);
        }
    }
}

/// Two trackers associate alike: they have the same settings for it and as
/// many tracks.
pub open spec fn associate_alike(a: TrackerState, b: TrackerState) -> bool {
    &&& a.iou_threshold == b.iou_threshold
    &&& a.confidence_mode == b.confidence_mode
    &&& a.high_confidence_threshold == b.high_confidence_threshold
    &&& a.tracks.len() == b.tracks.len()
}

/// What a frame matches and creates does not depend on the identities and the
/// counters of the tracks, nor on the next identity.
pub proof fn lemma_associate_alike(
    a: TrackerState,
    b: TrackerState,
    detections: Seq<SimpleSortDetection>,
    overlaps: Seq<Seq<Binary64>>,
)
    requires
        associate_alike(a, b),
    ensures
        ({
            let first = a.first_pass(detections, overlaps);
            &&& b.first_pass(detections, overlaps) == first
            &&& b.second_pass(detections, overlaps) == a.second_pass(detections, overlaps)
            &&& b.created(detections, first) == a.created(detections, first)
        }),
{
    let first = a.first_pass(detections, overlaps);
    lemma_select_congruent(
        detections.len(),
        |d: int| b.is_primary(detections[d]),
        |d: int| a.is_primary(detections[d]),
    );
    lemma_select_congruent(
        detections.len(),
        |d: int| b.is_secondary(detections[d]),
        |d: int| a.is_secondary(detections[d]),
    );
    lemma_select_congruent(
        detections.len(),
        |d: int| b.is_primary(detections[d]) && !detection_matched(first, d),
        |d: int| a.is_primary(detections[d]) && !detection_matched(first, d),
    );
}

/// Every track is in the list of all tracks, once.
pub proof fn lemma_every_track(state: TrackerState)
    requires
        state.tracks.len() <= usize::MAX,
    ensures
        state.every_track().no_duplicates(),
        state.every_track().len() == state.tracks.len(),
        forall|t: int| 0 <= t < state.tracks.len() ==> #[trigger] state.every_track()[t] == t,
{
    lemma_select(state.tracks.len(), |t: int| true);
    lemma_select_all(state.tracks.len(), |t: int| true);
}

/// Ascending numbers are all different.
proof fn lemma_ascending_distinct(numbers: Seq<usize>)
    requires
        ascending(numbers),
    ensures
        numbers.no_duplicates(),
{
    assert forall|k: int, l: int|
        0 <= k < numbers.len() && 0 <= l < numbers.len() && k != l implies numbers[k]
        != numbers[l] by {
        if k < l {
            assert(numbers[k] < numbers[l]);
        } else {
            assert(numbers[l] < numbers[k]);
        }
    }
}

/// The first pass matches tracks with primary detections, none twice.
proof fn lemma_first_pass(
    state: TrackerState,
    detections: Seq<SimpleSortDetection>,
    overlaps: Seq<Seq<Binary64>>,
    first: Seq<(usize, usize)>,
)
    requires
        is_association(
            overlaps,
            state.every_track(),
            state.primary(detections),
            state.iou_threshold,
            first,
        ),
        state.tracks.len() <= usize::MAX,
        detections.len() <= usize::MAX,
    ensures
        disjoint_pairs(first),
        forall|k: int|
            0 <= k < first.len() ==> {
                &&& (#[trigger] first[k]).0 < state.tracks.len()
                &&& first[k].1 < detections.len()
                &&& state.is_primary(detections[first[k].1 as int])
                &&& overlaps[first[k].0 as int][first[k].1 as int].at_least(state.iou_threshold)
            },
{
    let primary = |d: int| state.is_primary(detections[d]);
    lemma_every_track(state);
    lemma_select(detections.len(), primary);
    lemma_ascending_distinct(state.primary(detections));
    lemma_association(
        overlaps,
        state.every_track(),
        state.primary(detections),
        state.iou_threshold,
        first,
    );
    assert forall|k: int| 0 <= k < first.len() implies {
        &&& (#[trigger] first[k]).0 < state.tracks.len()
        &&& first[k].1 < detections.len()
        &&& state.is_primary(detections[first[k].1 as int])
    } by {
        let a = choose|a: int|
            0 <= a < state.every_track().len() && state.every_track()[a] == first[k].0;
        assert(state.every_track()[a] == a);
        let b = choose|b: int|
            0 <= b < state.primary(detections).len() && state.primary(detections)[b] == first[k].1;
        assert(primary(state.primary(detections)[b] as int));
    }
}

/// The two passes together give no track two detections and no detection two
/// tracks; the first pass matches primary detections only, the second pass
/// secondary ones only, with tracks that the first pass left; and every match
/// reaches the IoU threshold.
pub proof fn lemma_passes(
    state: TrackerState,
    detections: Seq<SimpleSortDetection>,
    overlaps: Seq<Seq<Binary64>>,
    first: Seq<(usize, usize)>,
    second: Seq<(usize, usize)>,
)
    requires
        state.associates(detections, overlaps, first, second),
        state.tracks.len() <= usize::MAX,
        detections.len() <= usize::MAX,
    ensures
        disjoint_pairs(first),
        disjoint_pairs(first + second),
        forall|k: int|
            0 <= k < first.len() ==> {
                &&& (#[trigger] first[k]).0 < state.tracks.len()
                &&& first[k].1 < detections.len()
                &&& state.is_primary(detections[first[k].1 as int])
                &&& overlaps[first[k].0 as int][first[k].1 as int].at_least(state.iou_threshold)
            },
        forall|k: int|
            0 <= k < second.len() ==> {
                &&& (#[trigger] second[k]).0 < state.tracks.len()
                &&& !track_matched(first, second[k].0 as int)
                &&& second[k].1 < detections.len()
                &&& state.is_secondary(detections[second[k].1 as int])
                &&& overlaps[second[k].0 as int][second[k].1 as int].at_least(state.iou_threshold)
            },
{
    let secondary = |d: int| state.is_secondary(detections[d]);
    let open = |t: int| !track_matched(first, t);
    lemma_first_pass(state, detections, overlaps, first);
    if state.confidence_mode == SimpleSortConfidenceMode::TwoStage {
        lemma_select(state.tracks.len(), open);
        lemma_select(detections.len(), secondary);
        lemma_ascending_distinct(state.unmatched(first));
        lemma_ascending_distinct(state.secondary(detections));
        lemma_association(
            overlaps,
            state.unmatched(first),
            state.secondary(detections),
            state.iou_threshold,
            second,
        );
        assert forall|k: int| 0 <= k < second.len() implies {
            &&& (#[trigger] second[k]).0 < state.tracks.len()
            &&& !track_matched(first, second[k].0 as int)
            &&& second[k].1 < detections.len()
            &&& state.is_secondary(detections[second[k].1 as int])
        } by {
            let a = choose|a: int|
                0 <= a < state.unmatched(first).len() && state.unmatched(first)[a] == second[k].0;
            assert(open(state.unmatched(first)[a] as int));
            let b = choose|b: int|
                0 <= b < state.secondary(detections).len() && state.secondary(detections)[b]
                    == second[k].1;
            assert(secondary(state.secondary(detections)[b] as int));
        }
        let both = first + second;
        assert forall|k: int, l: int| 0 <= k < l < both.len() implies (#[trigger] both[k]).0 != (
        #[trigger] both[l]).0 && both[k].1 != both[l].1 by {
            if l < first.len() {
                assert(both[k] == first[k] && both[l] == first[l]);
            } else if k >= first.len() {
                assert(both[k] == second[k - first.len()]);
                assert(both[l] == second[l - first.len()]);
            } else {
                assert(both[k] == first[k]);
                assert(both[l] == second[l - first.len()]);
                assert(!track_matched(first, both[l].0 as int));
                assert(state.is_primary(detections[first[k].1 as int]));
            }
        }
    } else {
        assert(first + second =~= first);
    }
}

/// The matches of the two passes are what cheapest assignments leave.
pub proof fn lemma_associates(
    state: TrackerState,
    detections: Seq<SimpleSortDetection>,
    overlaps: Seq<Seq<Binary64>>,
)
    requires
        state.tracks.len() <= usize::MAX,
        detections.len() <= usize::MAX,
    ensures
        state.associates(
            detections,
            overlaps,
            state.first_pass(detections, overlaps),
            state.second_pass(detections, overlaps),
        ),
{
    let first = state.first_pass(detections, overlaps);
    lemma_every_track(state);
    lemma_select(detections.len(), |d: int| state.is_primary(detections[d]));
    lemma_select(detections.len(), |d: int| state.is_secondary(detections[d]));
    lemma_select(state.tracks.len(), |t: int| !track_matched(first, t));
    lemma_found_association(
        overlaps,
        state.every_track(),
        state.primary(detections),
        state.iou_threshold,
    );
    lemma_found_association(
        overlaps,
        state.unmatched(first),
        state.secondary(detections),
        state.iou_threshold,
    );
}

/// The overlaps that a pass reads are there.
proof fn lemma_overlaps_known(
    overlaps: Seq<Seq<Binary64>>,
    tracks: nat,
    detections: nat,
    rows: Seq<usize>,
    columns: Seq<usize>,
)
    requires
        overlaps_shaped(overlaps, tracks, detections),
        forall|a: int| 0 <= a < rows.len() ==> (#[trigger] rows[a]) < tracks,
        forall|b: int| 0 <= b < columns.len() ==> (#[trigger] columns[b]) < detections,
    ensures
        overlaps_known(overlaps, rows, columns),
{
    assert forall|a: int, b: int| 0 <= a < rows.len() && 0 <= b < columns.len() implies {
        &&& (#[trigger] rows[a]) < overlaps.len()
        &&& (#[trigger] columns[b]) < overlaps[rows[a] as int].len()
        &&& overlaps[rows[a] as int][columns[b] as int].in_unit_interval()
    } by {
        assert(overlaps[rows[a] as int].len() == detections);
    }
}

/// Counts the detections of the matched tracks.
fn observe(
    tracks: &mut Vec<TrackRecord>,
    detections: &[SimpleSortDetection],
    matches: &Vec<(usize, usize)>,
    Ghost(state): Ghost<TrackerState>,
    Ghost(before): Ghost<Seq<(usize, usize)>>,
)
    requires
        old(tracks).len() == state.tracks.len(),
        disjoint_pairs(before + matches@),
        forall|k: int|
            0 <= k < matches.len() ==> (#[trigger] matches@[k]).0 < state.tracks.len()
                && matches@[k].1 < detections.len(),
        forall|k: int|
            0 <= k < matches.len() ==> state.tracks[(#[trigger] matches@[k]).0 as int].hits
                < usize::MAX,
        forall|t: int|
            0 <= t < state.tracks.len() ==> #[trigger] old(tracks)@[t] == state.advanced(
                detections@,
                before,
                t,
            ),
    ensures
        final(tracks).len() == state.tracks.len(),
        forall|t: int|
            0 <= t < state.tracks.len() ==> #[trigger] final(tracks)@[t] == state.advanced(
                detections@,
                before + matches@,
                t,
            ),
{
    assert(before + matches@.take(0) =~= before);
    for k in 0..matches.len()
        invariant
            tracks.len() == state.tracks.len(),
            disjoint_pairs(before + matches@),
            forall|l: int|
                0 <= l < matches.len() ==> (#[trigger] matches@[l]).0 < state.tracks.len()
                    && matches@[l].1 < detections.len(),
            forall|l: int|
                0 <= l < matches.len() ==> state.tracks[(#[trigger] matches@[l]).0 as int].hits
                    < usize::MAX,
            forall|t: int|
                0 <= t < state.tracks.len() ==> #[trigger] tracks@[t] == state.advanced(
                    detections@,
                    before + matches@.take(k as int),
                    t,
                ),
    {
        let ghost done = before + matches@.take(k as int);
        let ghost more = before + matches@.take(k + 1);
        let (track, detection) = matches[k];
        assert(matches@[k as int].0 < state.tracks.len());
        proof {
            assert(more.drop_last() =~= done);
            assert(more.last() == (track, detection));
            lemma_detection_of(done, track as int);
            if track_matched(done, track as int) {
                let l = choose|l: int| 0 <= l < done.len() && (#[trigger] done[l]).0 == track;
                let all = before + matches@;
                assert(all[l] == done[l]);
                assert(all[(before.len() + k) as int] == matches@[k as int]);
            }
            assert(tracks@[track as int] == state.tracks[track as int].predicted());
            assert(state.tracks[track as int].hits < usize::MAX);
        }
        let mut record: TrackRecord = tracks[track];
        record.update(&detections[detection]);
        tracks.set(track, record);
    }
    assert(matches@.take(matches.len() as int) =~= matches@);
}

impl SimpleSort {
    /// The detections of the first association pass.
    fn primary_detections(&self, detections: &[SimpleSortDetection]) -> (indices: Vec<usize>)
        ensures
            indices@ == self@.primary(detections@),
    {
        let ghost keep = |d: int| self@.is_primary(detections@[d]);
        let mut indices: Vec<usize> = Vec::new();
        for d in 0..detections.len()
            invariant
                keep == (|d: int| self@.is_primary(detections@[d])),
                indices@ == select(d as nat, keep),
        {
            if self.confidence_mode.is_primary(
                detections[d].confidence,
                self.high_confidence_threshold,
            ) {
                indices.push(d);
            }
        }
        indices
    }

    /// The detections of the second association pass.
    fn secondary_detections(&self, detections: &[SimpleSortDetection]) -> (indices: Vec<usize>)
        ensures
            indices@ == self@.secondary(detections@),
    {
        let ghost keep = |d: int| self@.is_secondary(detections@[d]);
        let mut indices: Vec<usize> = Vec::new();
        for d in 0..detections.len()
            invariant
                keep == (|d: int| self@.is_secondary(detections@[d])),
                indices@ == select(d as nat, keep),
        {
            if self.confidence_mode.is_secondary(
                detections[d].confidence,
                self.high_confidence_threshold,
            ) {
                indices.push(d);
            }
        }
        indices
    }

    /// Whether the counters and the identities have room for a frame with
    /// these detections, whatever they match.
    fn has_plenty(&self, detections: &[SimpleSortDetection]) -> (result: bool)
        ensures
            result == self@.has_ample_room(detections@),
    {
        let primary: Vec<usize> = self.primary_detections(detections);
        if primary.len() as u64 > u64::MAX - self.next_id {
            return false;
        }
        for t in 0..self.tracks.len()
            invariant
                forall|s: int| 0 <= s < t ==> (#[trigger] self@.tracks[s]).counts_on(),
        {
            if self.tracks[t].age == usize::MAX || self.tracks[t].hits == usize::MAX {
                assert(!self@.tracks[t as int].counts_on());
                return false;
            }
        }
        true
    }
}

/// Which of `count` things a list of pairs names, on its left side.
fn matched_tracks(matches: &Vec<(usize, usize)>, count: usize) -> (marks: Vec<bool>)
    requires
        forall|k: int| 0 <= k < matches.len() ==> (#[trigger] matches@[k]).0 < count,
    ensures
        marks.len() == count,
        forall|t: int| 0 <= t < count ==> #[trigger] marks@[t] == track_matched(matches@, t),
{
    let mut marks: Vec<bool> = vec![false; count];
    for k in 0..matches.len()
        invariant
            marks.len() == count,
            forall|l: int| 0 <= l < matches.len() ==> (#[trigger] matches@[l]).0 < count,
            forall|l: int| 0 <= l < k ==> marks@[(#[trigger] matches@[l]).0 as int],
            forall|t: int|
                0 <= t < count && #[trigger] marks@[t] ==> track_matched(matches@, t),
    {
        let track: usize = matches[k].0;
        assert(matches@[k as int].0 == track);
        marks.set(track, true);
    }
    marks
}

/// Which of `count` things a list of pairs names, on its right side.
fn matched_detections(matches: &Vec<(usize, usize)>, count: usize) -> (marks: Vec<bool>)
    requires
        forall|k: int| 0 <= k < matches.len() ==> (#[trigger] matches@[k]).1 < count,
    ensures
        marks.len() == count,
        forall|d: int| 0 <= d < count ==> #[trigger] marks@[d] == detection_matched(matches@, d),
{
    let mut marks: Vec<bool> = vec![false; count];
    for k in 0..matches.len()
        invariant
            marks.len() == count,
            forall|l: int| 0 <= l < matches.len() ==> (#[trigger] matches@[l]).1 < count,
            forall|l: int| 0 <= l < k ==> marks@[(#[trigger] matches@[l]).1 as int],
            forall|d: int|
                0 <= d < count && #[trigger] marks@[d] ==> detection_matched(matches@, d),
    {
        let detection: usize = matches[k].1;
        assert(matches@[k as int].1 == detection);
        marks.set(detection, true);
    }
    marks
}

/// The numbers of the marks that are not set.
fn unset(marks: &Vec<bool>, Ghost(keep): Ghost<spec_fn(int) -> bool>) -> (indices: Vec<usize>)
    requires
        forall|i: int| 0 <= i < marks.len() ==> #[trigger] keep(i) == !marks@[i],
    ensures
        indices@ == select(marks.len() as nat, keep),
{
    let mut indices: Vec<usize> = Vec::new();
    for i in 0..marks.len()
        invariant
            forall|i: int| 0 <= i < marks.len() ==> #[trigger] keep(i) == !marks@[i],
            indices@ == select(i as nat, keep),
    {
        assert(keep(i as int) == !marks@[i as int]);
        if !marks[i] {
            indices.push(i);
        }
    }
    indices
}

/// A track that the frame leaves consistent and young enough stays so.
proof fn lemma_after_frame_wf(
    state: TrackerState,
    detections: Seq<SimpleSortDetection>,
    first: Seq<(usize, usize)>,
    second: Seq<(usize, usize)>,
)
    requires
        state.wf(),
        state.all_tracks(detections, first, second).len() <= usize::MAX,
        state.counts_on(first + second),
    ensures
        state.after_frame(detections, first, second).wf(),
{
    let all = state.all_tracks(detections, first, second);
    let keep = |k: int| all[k].time_since_update <= state.max_age;
    let kept = state.kept(detections, first, second);
    let after = state.after_frame(detections, first, second);
    lemma_select(all.len(), keep);
    assert forall|t: int| 0 <= t < after.tracks.len() implies (
    #[trigger] after.tracks[t]).consistent() && after.tracks[t].time_since_update
        <= after.max_age by {
        let k = kept[t] as int;
        assert(keep(kept[t] as int));
        assert(after.tracks[t] == all[k]);
        if k < state.tracks.len() {
            assert(state.tracks[k].consistent() && state.tracks[k].age < usize::MAX);
            lemma_detection_of(first + second, k);
        }
    }
}

impl SimpleSort {
    /// The two association passes of a frame.
    fn associate(
        &self,
        detections: &[SimpleSortDetection],
        overlaps: &[Vec<Binary64>],
    ) -> (matches: (Vec<(usize, usize)>, Vec<(usize, usize)>))
        requires
            overlaps_shaped(matrix(overlaps@), self@.tracks.len(), detections@.len()),
        ensures
            self@.associates(detections@, matrix(overlaps@), matches.0@, matches.1@),
    {
        let ghost m = matrix(overlaps@);
        let track_count: usize = self.tracks.len();
        let ghost every = |t: int| true;
        let mut all_tracks: Vec<usize> = Vec::with_capacity(track_count);
        for t in 0..track_count
            invariant
                every == (|t: int| true),
                all_tracks@ == select(t as nat, every),
        {
            all_tracks.push(t);
        }
        let primary: Vec<usize> = self.primary_detections(detections);
        assert(detections@.len() == detections.len());
        proof {
            lemma_every_track(self@);
            lemma_select(detections@.len(), |d: int| self@.is_primary(detections@[d]));
            lemma_overlaps_known(
                m,
                self@.tracks.len(),
                detections@.len(),
                all_tracks@,
                primary@,
            );
        }
        let first: Vec<(usize, usize)> = assign_detections(
            overlaps,
            all_tracks.as_slice(),
            primary.as_slice(),
            self.iou_threshold,
        );
        if self.confidence_mode == SimpleSortConfidenceMode::TwoStage {
            let ghost open = |t: int| !track_matched(first@, t);
            proof {
                lemma_first_pass(self@, detections@, m, first@);
            }
            let marks: Vec<bool> = matched_tracks(&first, track_count);
            let unmatched: Vec<usize> = unset(&marks, Ghost(open));
            let secondary: Vec<usize> = self.secondary_detections(detections);
            proof {
                lemma_select(self@.tracks.len(), open);
                lemma_select(detections@.len(), |d: int| self@.is_secondary(detections@[d]));
                lemma_overlaps_known(
                    m,
                    self@.tracks.len(),
                    detections@.len(),
                    unmatched@,
                    secondary@,
                );
            }
            let second: Vec<(usize, usize)> = assign_detections(
                overlaps,
                unmatched.as_slice(),
                secondary.as_slice(),
                self.iou_threshold,
            );
            (first, second)
        } else {
            (first, Vec::new())
        }
    }

    /// The detections that create a track.
    fn creating_detections(
        &self,
        detections: &[SimpleSortDetection],
        first: &Vec<(usize, usize)>,
    ) -> (indices: Vec<usize>)
        requires
            forall|k: int| 0 <= k < first.len() ==> (#[trigger] first@[k]).1 < detections@.len(),
        ensures
            indices@ == self@.created(detections@, first@),
    {
        let ghost keep = |d: int|
            self@.is_primary(detections@[d]) && !detection_matched(first@, d);
        let matched: Vec<bool> = matched_detections(first, detections.len());
        let mut indices: Vec<usize> = Vec::new();
        for d in 0..detections.len()
            invariant
                keep == (|d: int|
                    self@.is_primary(detections@[d]) && !detection_matched(first@, d)),
                matched.len() == detections@.len(),
                forall|d: int|
                    0 <= d < matched.len() ==> #[trigger] matched@[d] == detection_matched(
                        first@,
                        d,
                    ),
                indices@ == select(d as nat, keep),
        {
            if self.confidence_mode.is_primary(
                detections[d].confidence,
                self.high_confidence_threshold,
            ) && !matched[d] {
                indices.push(d);
            }
        }
        indices
    }

    /// The number of tracks that a frame with these detections creates.
    pub(crate) fn created_count(
        &self,
        detections: &[SimpleSortDetection],
        overlaps: &[Vec<Binary64>],
    ) -> (count: usize)
        requires
            overlaps_shaped(matrix(overlaps@), self@.tracks.len(), detections@.len()),
        ensures
            count == self@.created(
                detections@,
                self@.first_pass(detections@, matrix(overlaps@)),
            ).len(),
    {
        let (first, second) = self.associate(detections, overlaps);
        assert(self@.tracks.len() == self.tracks.len());
        assert(detections@.len() == detections.len());
        proof {
            lemma_passes(self@, detections@, matrix(overlaps@), first@, second@);
        }
        self.creating_detections(detections, &first).len()
    }

    /// Whether the counters and the identities have room for a frame with
    /// these detections and overlaps.
    pub fn can_update(
        &self,
        detections: &[SimpleSortDetection],
        overlaps: &[Vec<Binary64>],
    ) -> (result: bool)
        requires
            overlaps_shaped(matrix(overlaps@), self@.tracks.len(), detections@.len()),
        ensures
            result == self@.has_room(detections@, matrix(overlaps@)),
    {
        if self.has_plenty(detections) {
            proof {
                lemma_ample_room(self@, detections@, matrix(overlaps@));
            }
            return true;
        }
        let track_count: usize = self.tracks.len();
        let (first, second) = self.associate(detections, overlaps);
        let ghost both = first@ + second@;
        assert(detections@.len() == detections.len());
        proof {
            lemma_passes(self@, detections@, matrix(overlaps@), first@, second@);
        }
        let created: Vec<usize> = self.creating_detections(detections, &first);
        if created.len() as u64 > u64::MAX - self.next_id {
            return false;
        }
        let observed_first: Vec<bool> = matched_tracks(&first, track_count);
        let observed_second: Vec<bool> = matched_tracks(&second, track_count);
        for t in 0..track_count
            invariant
                track_count == self@.tracks.len(),
                self@.tracks == self.tracks@,
                both == first@ + second@,
                both == self@.first_pass(detections@, matrix(overlaps@)) + self@.second_pass(
                    detections@,
                    matrix(overlaps@),
                ),
                observed_first.len() == track_count,
                observed_second.len() == track_count,
                forall|s: int|
                    0 <= s < track_count ==> #[trigger] observed_first@[s] == track_matched(
                        first@,
                        s,
                    ),
                forall|s: int|
                    0 <= s < track_count ==> #[trigger] observed_second@[s] == track_matched(
                        second@,
                        s,
                    ),
                forall|s: int|
                    0 <= s < t ==> (#[trigger] self@.tracks[s]).age < usize::MAX && (track_matched(
                        both,
                        s,
                    ) ==> self@.tracks[s].hits < usize::MAX),
        {
            proof {
                lemma_track_matched_adds(first@, second@, t as int);
            }
            let track: TrackRecord = self.tracks[t];
            let observed: bool = observed_first[t] || observed_second[t];
            if track.age == usize::MAX || (observed && track.hits == usize::MAX) {
                assert(self@.tracks[t as int] == track);
                return false;
            }
        }
        true
    }

    /// Drops the tracks that have gone unobserved for too long.
    fn retain(&mut self) -> (kept: Vec<usize>)
        ensures
            kept@ == select(
                old(self)@.tracks.len(),
                |k: int| old(self)@.tracks[k].time_since_update <= old(self)@.max_age,
            ),
            final(self)@ == (TrackerState {
                tracks: Seq::new(kept@.len(), |k: int| old(self)@.tracks[kept@[k] as int]),
                ..old(self)@
            }),
    {
        let ghost state = self@;
        let ghost keep = |k: int| state.tracks[k].time_since_update <= state.max_age;
        let mut kept: Vec<usize> = Vec::new();
        let mut tracks: Vec<TrackRecord> = Vec::new();
        for k in 0..self.tracks.len()
            invariant
                state == self@,
                keep == (|k: int| state.tracks[k].time_since_update <= state.max_age),
                kept@ == select(k as nat, keep),
                tracks@ =~= Seq::new(kept@.len(), |k: int| state.tracks[kept@[k] as int]),
        {
            if self.tracks[k].time_since_update <= self.max_age {
                kept.push(k);
                tracks.push(self.tracks[k]);
            }
        }
        self.tracks = tracks;
        kept
    }

    /// The tracks that are part of the output of this frame.
    fn reported_tracks(&self) -> (reported: Vec<SimpleSortTrack>)
        ensures
            reported@ == self@.reported(),
    {
        let ghost keep = |t: int| self@.tracks[t].reportable(self@.min_hits);
        let ghost mut places: Seq<usize> = Seq::empty();
        let mut reported: Vec<SimpleSortTrack> = Vec::new();
        for t in 0..self.tracks.len()
            invariant
                keep == (|t: int| self@.tracks[t].reportable(self@.min_hits)),
                places == select(t as nat, keep),
                reported@ =~= Seq::new(
                    places.len(),
                    |k: int| self@.tracks[places[k] as int].outcome(places[k]),
                ),
        {
            if self.tracks[t].is_reportable(self.min_hits) {
                reported.push(self.tracks[t].output(t));
                proof {
                    places = places.push(t);
                }
            }
        }
        reported
    }

    /// Takes in the detections of one frame. `overlaps` holds the overlap of
    /// the predicted box of each live track (rows) with the box of each
    /// detection (columns).
    pub fn update(
        &mut self,
        detections: &[SimpleSortDetection],
        overlaps: &[Vec<Binary64>],
    ) -> (frame: FrameUpdate)
        requires
            old(self)@.wf(),
            old(self)@.has_room(detections@, matrix(overlaps@)),
            overlaps_shaped(matrix(overlaps@), old(self)@.tracks.len(), detections@.len()),
        ensures
            final(self)@.wf(),
            frame.first_matches@ == old(self)@.first_pass(detections@, matrix(overlaps@)),
            frame.second_matches@ == old(self)@.second_pass(detections@, matrix(overlaps@)),
            old(self)@.associates(
                detections@,
                matrix(overlaps@),
                frame.first_matches@,
                frame.second_matches@,
            ),
            final(self)@ == old(self)@.after_frame(
                detections@,
                frame.first_matches@,
                frame.second_matches@,
            ),
            frame.created@ == old(self)@.created(detections@, frame.first_matches@),
            frame.kept@ == old(self)@.kept(
                detections@,
                frame.first_matches@,
                frame.second_matches@,
            ),
            frame.reported@ == final(self)@.reported(),
            old(self)@.all_tracks(
                detections@,
                frame.first_matches@,
                frame.second_matches@,
            ).len() <= usize::MAX,
    {
        let ghost state = self@;
        let ghost none = Seq::<(usize, usize)>::empty();
        let track_count: usize = self.tracks.len();
        let (first, second) = self.associate(detections, overlaps);
        assert(detections@.len() == detections.len());
        proof {
            lemma_passes(state, detections@, matrix(overlaps@), first@, second@);
        }
        let created: Vec<usize> = self.creating_detections(detections, &first);
        for t in 0..track_count
            invariant
                state.wf(),
                state.counts_on(first@ + second@),
                track_count == state.tracks.len(),
                self@ == (TrackerState { tracks: self@.tracks, ..state }),
                self.tracks.len() == track_count,
                none.len() == 0,
                forall|s: int|
                    0 <= s < t ==> #[trigger] self.tracks@[s] == state.advanced(
                        detections@,
                        none,
                        s,
                    ),
                forall|s: int|
                    t <= s < track_count ==> #[trigger] self.tracks@[s] == state.tracks[s],
        {
            let mut record: TrackRecord = self.tracks[t];
            assert(state.tracks[t as int].age < usize::MAX && state.tracks[t as int].consistent());
            record.predict();
            self.tracks.set(t, record);
        }
        assert(none + first@ =~= first@);
        proof {
            let both = first@ + second@;
            assert forall|k: int| 0 <= k < first.len() implies state.tracks[(
            #[trigger] first@[k]).0 as int].hits < usize::MAX by {
                assert(both[k] == first@[k]);
                assert(track_matched(both, first@[k].0 as int));
            }
            assert forall|k: int| 0 <= k < second.len() implies state.tracks[(
            #[trigger] second@[k]).0 as int].hits < usize::MAX by {
                assert(both[first.len() + k] == second@[k]);
                assert(track_matched(both, second@[k].0 as int));
            }
        }
        observe(&mut self.tracks, detections, &first, Ghost(state), Ghost(none));
        observe(&mut self.tracks, detections, &second, Ghost(state), Ghost(first@));
        let ghost fresh = Seq::new(
            created@.len(),
            |k: int|
                TrackRecord::started((state.next_id + k) as u64, detections@[created@[k] as int]),
        );
        let ghost old_tracks = self.tracks@;
        proof {
            let wanted = |d: int|
                state.is_primary(detections@[d]) && !detection_matched(first@, d);
            lemma_select(detections@.len(), wanted);
        }
        for k in 0..created.len()
            invariant
                self@ == (TrackerState {
                    next_id: (state.next_id + k) as u64,
                    tracks: self@.tracks,
                    ..state
                }),
                state.next_id + created.len() <= u64::MAX,
                forall|l: int| 0 <= l < created.len() ==> (#[trigger] created@[l]) < detections@.len(),
                fresh == Seq::new(
                    created@.len(),
                    |k: int|
                        TrackRecord::started(
                            (state.next_id + k) as u64,
                            detections@[created@[k] as int],
                        ),
                ),
                self.tracks@ == old_tracks + fresh.take(k as int),
        {
            assert(created@[k as int] < detections@.len());
            self.tracks.push(TrackRecord::new(self.next_id, &detections[created[k]]));
            self.next_id = self.next_id + 1;
            assert(fresh.take(k + 1) =~= fresh.take(k as int).push(fresh[k as int]));
        }
        let ghost all = state.all_tracks(detections@, first@, second@);
        assert(self.tracks@ =~= all);
        proof {
            assert(self.tracks.len() == all.len());
            lemma_after_frame_wf(state, detections@, first@, second@);
        }
        let ghost grown = self@;
        let kept: Vec<usize> = self.retain();
        proof {
            lemma_select_congruent(
                all.len(),
                |k: int| grown.tracks[k].time_since_update <= grown.max_age,
                |k: int| all[k].time_since_update <= state.max_age,
            );
        }
        assert(self@ =~= state.after_frame(detections@, first@, second@));
        let reported: Vec<SimpleSortTrack> = self.reported_tracks();
        FrameUpdate { first_matches: first, second_matches: second, created, kept, reported }
    }
}

/// Ample room is room enough.
proof fn lemma_ample_room(
    state: TrackerState,
    detections: Seq<SimpleSortDetection>,
    overlaps: Seq<Seq<Binary64>>,
)
    requires
        state.has_ample_room(detections),
    ensures
        state.has_room(detections, overlaps),
{
    lemma_created_primary(state, detections, state.first_pass(detections, overlaps));
    assert forall|t: int| 0 <= t < state.tracks.len() implies (#[trigger] state.tracks[t]).age
        < usize::MAX && state.tracks[t].hits < usize::MAX by {
        assert(state.tracks[t].counts_on());
    }
}

/// No more tracks are created than there are primary detections.
pub proof fn lemma_created_primary(
    state: TrackerState,
    detections: Seq<SimpleSortDetection>,
    first: Seq<(usize, usize)>,
)
    ensures
        state.created(detections, first).len() <= state.primary(detections).len(),
{
    lemma_select_fewer(
        detections.len(),
        |d: int| state.is_primary(detections[d]) && !detection_matched(first, d),
        |d: int| state.is_primary(detections[d]),
    );
}

/// A frame without detections matches nothing, creates nothing, and leaves the
/// tracks that one frame without detections leaves.
pub proof fn lemma_empty_frame(state: TrackerState, overlaps: Seq<Seq<Binary64>>)
    requires
        state.wf(),
        state.can_wait(1),
    ensures
        ({
            let none = Seq::<SimpleSortDetection>::empty();
            let first = state.first_pass(none, overlaps);
            let second = state.second_pass(none, overlaps);
            &&& first.len() == 0
            &&& second.len() == 0
            &&& state.created(none, first).len() == 0
            &&& state.kept(none, first, second) == state.idle_places(1)
            &&& state.after_frame(none, first, second) == state.idle(1)
        }),
{
    let none = Seq::<SimpleSortDetection>::empty();
    let first = state.first_pass(none, overlaps);
    let second = state.second_pass(none, overlaps);
    assert(width(costs_between(overlaps, state.every_track(), Seq::empty())) == 0);
    assert(width(costs_between(overlaps, state.unmatched(first), Seq::empty())) == 0);
    let all = state.all_tracks(none, first, second);
    assert(all.len() == state.tracks.len());
    assert forall|t: int| 0 <= t < all.len() implies #[trigger] all[t] == state.tracks[t].waited(1)
        && all[t].time_since_update == state.tracks[t].time_since_update + 1 by {
        assert(state.tracks[t].consistent() && state.tracks[t].age < usize::MAX);
        assert(detection_of(first + second, t) is None);
    }
    lemma_select_congruent(
        all.len(),
        |k: int| all[k].time_since_update <= state.max_age,
        |t: int| state.tracks[t].time_since_update + 1 <= state.max_age,
    );
    lemma_select(
        all.len(),
        |t: int| state.tracks[t].time_since_update + 1 <= state.max_age,
    );
    let places = state.idle_places(1);
    let after = state.after_frame(none, first, second);
    assert(state.kept(none, first, second) == places);
    assert(after =~= state.idle(1)) by {
        assert forall|k: int| 0 <= k < places.len() implies (#[trigger] after.tracks[k])
            == state.idle(1).tracks[k] by {
            assert(all[places[k] as int] == state.tracks[places[k] as int].waited(1));
        }
    }
}

/// Waiting `a` frames and then `b` frames is waiting `a + b` frames.
#[verifier::rlimit(30)]
pub proof fn lemma_idle_adds(state: TrackerState, a: nat, b: nat)
    requires
        state.wf(),
        state.can_wait(a + b),
    ensures
        state.idle(a).idle(b) == state.idle(a + b),
        at_places(state.idle_places(a), state.idle(a).idle_places(b)) == state.idle_places(a + b),
{
    let middle = state.idle(a);
    let places = state.idle_places(a);
    let keep = |t: int| state.tracks[t].time_since_update + a <= state.max_age;
    let again = |t: int| state.tracks[t].time_since_update + (a + b) <= state.max_age;
    let within = |t: int| middle.tracks[t].time_since_update + b <= middle.max_age;
    let both = |t: int| state.tracks[t].time_since_update + (a + b) <= state.max_age;
    lemma_select(state.tracks.len(), keep);
    assert forall|t: int| 0 <= t < state.tracks.len() && a + b > 0 implies (
    #[trigger] state.tracks[t]).age + a + b <= usize::MAX && state.tracks[t].time_since_update
        <= state.tracks[t].age by {
        assert(state.tracks[t].consistent());
    }
    assert forall|k: int| 0 <= k < places.len() implies #[trigger] within(k) == again(
        places[k] as int,
    ) by {
        assert(keep(places[k] as int));
        assert(middle.tracks[k] == state.tracks[places[k] as int].waited(a));
        assert(state.tracks[places[k] as int].consistent());
    }
    lemma_select_again(state.tracks.len(), keep, again, within, both);
    let inner = middle.idle_places(b);
    lemma_select(places.len(), within);
    let ended = state.idle(a + b);
    assert(at_places(places, inner) == state.idle_places(a + b));
    assert(middle.idle(b).tracks =~= ended.tracks) by {
        assert forall|k: int| 0 <= k < inner.len() implies #[trigger] middle.idle(b).tracks[k]
            == ended.tracks[k] by {
            let p = inner[k] as int;
            assert(within(inner[k] as int));
            let t = places[p] as int;
            assert(at_places(places, inner)[k] == t);
            assert(state.idle_places(a + b)[k] == t);
            assert(keep(places[p] as int));
            assert(middle.tracks[p] == state.tracks[t].waited(a));
            assert(state.tracks[t].consistent());
        }
    }
}

/// A tracker that can wait `all` frames can wait fewer.
proof fn lemma_idle_waits(state: TrackerState, a: nat, b: nat, all: nat)
    requires
        state.can_wait(all),
        a + b <= all,
    ensures
        state.can_wait(a + b),
{
    if a + b > 0 {
        assert forall|t: int| 0 <= t < state.tracks.len() implies (#[trigger] state.tracks[t]).age
            + (a + b) <= usize::MAX by {}
    }
}

/// After `frame` of `all` frames there is room for one more.
proof fn lemma_idle_room(state: TrackerState, frame: nat, all: nat)
    requires
        state.wf(),
        state.can_wait(all),
        frame < all,
    ensures
        state.idle(frame).can_wait(1),
{
    let waiting = state.idle(frame);
    let places = state.idle_places(frame);
    lemma_select(
        state.tracks.len(),
        |t: int| state.tracks[t].time_since_update + frame <= state.max_age,
    );
    assert forall|t: int| 0 <= t < waiting.tracks.len() implies (
    #[trigger] waiting.tracks[t]).age + 1 <= usize::MAX by {
        let p = places[t] as int;
        assert(waiting.tracks[t] == state.tracks[p].waited(frame));
        assert(state.tracks[p].age + all <= usize::MAX);
    }
}

impl SimpleSort {
    /// Advances the tracker by `frames` frames without detections, and tells
    /// which tracks are left, by their place before.
    pub fn skip_frames(&mut self, frames: usize) -> (kept: Vec<usize>)
        requires
            old(self)@.wf(),
            old(self)@.can_wait(frames as nat),
        ensures
            final(self)@.wf(),
            final(self)@ == old(self)@.idle(frames as nat),
            kept@ == old(self)@.idle_places(frames as nat),
    {
        let ghost state = self@;
        let track_count: usize = self.tracks.len();
        let ghost every = |t: int| state.tracks[t].time_since_update + 0 <= state.max_age;
        let mut kept: Vec<usize> = Vec::with_capacity(track_count);
        for t in 0..track_count
            invariant
                track_count == state.tracks.len(),
                state.wf(),
                every == (|t: int| state.tracks[t].time_since_update + 0 <= state.max_age),
                kept@ == select(t as nat, every),
        {
            assert(state.tracks[t as int].time_since_update <= state.max_age);
            kept.push(t);
        }
        proof {
            assert forall|t: int| 0 <= t < state.tracks.len() implies #[trigger] every(t) by {
                assert(state.tracks[t].time_since_update <= state.max_age);
            }
            lemma_select_all(state.tracks.len(), every);
            assert(state.idle(0) =~= state);
        }
        let nothing: Vec<SimpleSortDetection> = Vec::new();
        for frame in 0..frames
            invariant
                state.wf(),
                state.can_wait(frames as nat),
                nothing.len() == 0,
                self@.wf(),
                self@ == state.idle(frame as nat),
                kept@ == state.idle_places(frame as nat),
        {
            let ghost before = self@;
            let mut rows: Vec<Vec<Binary64>> = Vec::with_capacity(self.tracks.len());
            for t in 0..self.tracks.len()
                invariant
                    rows.len() == t,
                    forall|s: int| 0 <= s < t ==> (#[trigger] rows@[s])@.len() == 0,
            {
                rows.push(Vec::new());
            }
            proof {
                lemma_idle_room(state, frame as nat, frames as nat);
                assert(nothing@ =~= Seq::empty());
                lemma_empty_frame(before, matrix(rows@));
                assert forall|t: int| 0 <= t < before.tracks.len() implies (
                #[trigger] matrix(rows@)[t]).len() == 0 by {
                    assert(rows@[t]@.len() == 0);
                }
            }
            let update: FrameUpdate = self.update(nothing.as_slice(), rows.as_slice());
            proof {
                lemma_idle_waits(state, frame as nat, 1, frames as nat);
                lemma_idle_adds(state, frame as nat, 1);
            }
            let mut left: Vec<usize> = Vec::with_capacity(update.kept.len());
            let ghost inner = before.idle_places(1);
            proof {
                lemma_select(
                    before.tracks.len(),
                    |t: int| before.tracks[t].time_since_update + 1 <= before.max_age,
                );
            }
            for k in 0..update.kept.len()
                invariant
                    update.kept@ == inner,
                    forall|k: int|
                        0 <= k < inner.len() ==> (#[trigger] inner[k]) < kept.len(),
                    left@ =~= at_places(kept@, inner).take(k as int),
            {
                assert(inner[k as int] < kept.len());
                left.push(kept[update.kept[k]]);
            }
            assert(left@ =~= at_places(kept@, inner));
            kept = left;
        }
        kept
    }
}

} // verus!
