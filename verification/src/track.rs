//! Detections, and the life of a track.

use crate::binary64::Binary64;
use vstd::prelude::*;

verus! {

/// One detector observation in axis-aligned `xyxy` coordinates.
#[derive(Clone, Copy, Debug)]
pub struct SimpleSortDetection {
    pub x1: Binary64,
    pub y1: Binary64,
    pub x2: Binary64,
    pub y2: Binary64,
    pub confidence: Binary64,
}

impl SimpleSortDetection {
    pub fn new(
        x1: Binary64,
        y1: Binary64,
        x2: Binary64,
        y2: Binary64,
        confidence: Binary64,
    ) -> (detection: Self)
        ensures
            detection == (SimpleSortDetection { x1, y1, x2, y2, confidence }),
    {
        SimpleSortDetection { x1, y1, x2, y2, confidence }
    }
}

impl vstd::std_specs::cmp::PartialEqSpecImpl for SimpleSortDetection {
    open spec fn obeys_eq_spec() -> bool {
        true
    }

    open spec fn eq_spec(&self, other: &Self) -> bool {
        &&& self.x1.equals(other.x1)
        &&& self.y1.equals(other.y1)
        &&& self.x2.equals(other.x2)
        &&& self.y2.equals(other.y2)
        &&& self.confidence.equals(other.confidence)
    }
}

impl PartialEq for SimpleSortDetection {
    fn eq(&self, other: &Self) -> (result: bool) {
        self.x1 == other.x1 && self.y1 == other.y1 && self.x2 == other.x2 && self.y2 == other.y2
            && self.confidence == other.confidence
    }
}

/// A track observed in the current update.
#[derive(Clone, Copy, Debug)]
pub struct SimpleSortTrack {
    pub id: u64,
    pub confidence: Binary64,
    /// The place of the track among the live tracks after the update.
    pub place: usize,
}

impl vstd::std_specs::cmp::PartialEqSpecImpl for SimpleSortTrack {
    open spec fn obeys_eq_spec() -> bool {
        true
    }

    open spec fn eq_spec(&self, other: &Self) -> bool {
        &&& self.id == other.id
        &&& self.confidence.equals(other.confidence)
        &&& self.place == other.place
    }
}

impl PartialEq for SimpleSortTrack {
    fn eq(&self, other: &Self) -> (result: bool) {
        self.id == other.id && self.confidence == other.confidence && self.place == other.place
    }
}

/// What the tracker keeps of a track besides its motion state: who it is, how
/// sure its last detection was, and how often and when it was observed.
#[derive(Clone, Copy, Debug)]
pub struct TrackRecord {
    pub id: u64,
    /// The confidence of the last detection of this track.
    pub confidence: Binary64,
    /// The number of detections of this track.
    pub hits: usize,
    /// The number of frames since the first detection.
    pub age: usize,
    /// The number of frames since the last detection.
    pub time_since_update: usize,
}

impl TrackRecord {
    /// A track that this detection starts.
    pub open spec fn started(id: u64, detection: SimpleSortDetection) -> TrackRecord {
        TrackRecord {
            id,
            confidence: detection.confidence,
            hits: 1,
            age: 0,
            time_since_update: 0,
        }
    }

    /// The track one frame later, not observed yet.
    pub open spec fn predicted(self) -> TrackRecord {
        TrackRecord {
            age: (self.age + 1) as usize,
            time_since_update: (self.time_since_update + 1) as usize,
            ..self
        }
    }

    /// The track `frames` frames later, not observed in any of them.
    pub open spec fn waited(self, frames: nat) -> TrackRecord {
        TrackRecord {
            age: (self.age + frames) as usize,
            time_since_update: (self.time_since_update + frames) as usize,
            ..self
        }
    }

    /// The track after a detection of it.
    pub open spec fn observed(self, detection: SimpleSortDetection) -> TrackRecord {
        TrackRecord {
            confidence: detection.confidence,
            hits: (self.hits + 1) as usize,
            time_since_update: 0,
            ..self
        }
    }

    /// A track is reported in a frame in which it is observed, if it has been
    /// observed often enough or is still young.
    pub open spec fn reportable(self, min_hits: usize) -> bool {
        self.time_since_update == 0 && (self.hits >= min_hits || self.age < min_hits)
    }

    /// What is reported of the track at a place.
    pub open spec fn outcome(self, place: usize) -> SimpleSortTrack {
        SimpleSortTrack { id: self.id, confidence: self.confidence, place }
    }

    /// One more frame and one more detection can be counted.
    pub open spec fn counts_on(self) -> bool {
        self.age < usize::MAX && self.hits < usize::MAX
    }

    /// Detections come at most once a frame, and the last one not before the
    /// first.
    pub open spec fn consistent(self) -> bool {
        1 <= self.hits <= self.age + 1 && self.time_since_update <= self.age
    }

    pub fn new(id: u64, detection: &SimpleSortDetection) -> (track: TrackRecord)
        ensures
            track == TrackRecord::started(id, *detection),
            track.id == id && track.confidence == detection.confidence,
            track.hits == 1 && track.age == 0 && track.time_since_update == 0,
    {
        TrackRecord {
            id,
            confidence: detection.confidence,
            hits: 1,
            age: 0,
            time_since_update: 0,
        }
    }

    /// Advances the track by one frame.
    pub fn predict(&mut self)
        requires
            old(self).age < usize::MAX,
            old(self).time_since_update < usize::MAX,
        ensures
            *final(self) == old(self).predicted(),
            final(self).age == old(self).age + 1,
            final(self).time_since_update == old(self).time_since_update + 1,
            final(self).id == old(self).id && final(self).hits == old(self).hits,
            final(self).confidence == old(self).confidence,
    {
        self.age = self.age + 1;
        self.time_since_update = self.time_since_update + 1;
    }

    /// Counts a detection of the track.
    pub fn update(&mut self, detection: &SimpleSortDetection)
        requires
            old(self).hits < usize::MAX,
        ensures
            *final(self) == old(self).observed(*detection),
            final(self).hits == old(self).hits + 1,
            final(self).time_since_update == 0,
            final(self).confidence == detection.confidence,
            final(self).id == old(self).id && final(self).age == old(self).age,
    {
        self.confidence = detection.confidence;
        self.hits = self.hits + 1;
        self.time_since_update = 0;
    }

    /// What is reported of the track at a place.
    pub fn output(&self, place: usize) -> (track: SimpleSortTrack)
        ensures
            track == self.outcome(place),
            track.id == self.id && track.confidence == self.confidence && track.place == place,
    {
        SimpleSortTrack { id: self.id, confidence: self.confidence, place }
    }

    /// Whether the track is part of the output of this frame.
    pub fn is_reportable(&self, min_hits: usize) -> (result: bool)
        ensures
            result <==> self.time_since_update == 0 && (self.hits >= min_hits || self.age
                < min_hits),
            result == self.reportable(min_hits),
    {
        self.time_since_update == 0 && (self.hits >= min_hits || self.age < min_hits)
    }
}

/// Detections are equal if all their numbers are.
pub proof fn lemma_equal_detections(a: SimpleSortDetection, b: SimpleSortDetection)
    ensures
        vstd::std_specs::cmp::PartialEqSpec::eq_spec(&a, &b) <==> a.x1.equals(b.x1)
            && a.y1.equals(b.y1) && a.x2.equals(b.x2) && a.y2.equals(b.y2) && a.confidence.equals(
            b.confidence,
        ),
{
}

/// Reports are equal if they are of the same identity and place with equal
/// confidences.
pub proof fn lemma_equal_reports(a: SimpleSortTrack, b: SimpleSortTrack)
    ensures
        vstd::std_specs::cmp::PartialEqSpec::eq_spec(&a, &b) <==> a.id == b.id && a.place == b.place
            && a.confidence.equals(b.confidence),
{
}

} // verus!
