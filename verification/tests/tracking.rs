//! Scenarios with real boxes: a constant-velocity Kalman filter and raw IoU
//! around the tracker.

use nalgebra::{SMatrix, SVector};
use simple_sort::assignment::linear_sum_assignment;
use simple_sort::batch::{BatchSimpleSort, SceneRequest};
use simple_sort::binary64::Binary64;
use simple_sort::confidence::SimpleSortConfidenceMode;
use simple_sort::track::SimpleSortDetection;
use simple_sort::tracker::{FrameUpdate, SimpleSort};
use std::collections::HashMap;

type Vector4 = SVector<f64, 4>;
type Vector6 = SVector<f64, 6>;
type Matrix4 = SMatrix<f64, 4, 4>;
type Matrix4x6 = SMatrix<f64, 4, 6>;
type Matrix6 = SMatrix<f64, 6, 6>;

fn b(x: f64) -> Binary64 {
    Binary64::from_bits(x.to_bits())
}

fn f(x: Binary64) -> f64 {
    f64::from_bits(x.bits)
}

fn detection(x1: f64, y1: f64, x2: f64, y2: f64, confidence: f64) -> SimpleSortDetection {
    SimpleSortDetection::new(b(x1), b(y1), b(x2), b(y2), b(confidence))
}

struct Motion {
    state: Vector6,
    covariance: Matrix6,
}

fn measurement(detection: &SimpleSortDetection) -> Vector4 {
    let (x1, y1) = (f(detection.x1), f(detection.y1));
    let (x2, y2) = (f(detection.x2), f(detection.y2));
    Vector4::new((x1 + x2) / 2.0, (y1 + y2) / 2.0, x2 - x1, y2 - y1)
}

impl Motion {
    fn new(detection: &SimpleSortDetection) -> Motion {
        let m = measurement(detection);
        Motion {
            state: Vector6::new(m[0], m[1], m[2], m[3], 0.0, 0.0),
            covariance: Matrix6::from_diagonal(&Vector6::new(
                10.0, 10.0, 10.0, 10.0, 100.0, 100.0,
            )),
        }
    }

    fn predict(&mut self) {
        let mut transition = Matrix6::identity();
        transition[(0, 4)] = 1.0;
        transition[(1, 5)] = 1.0;
        let noise = Matrix6::from_diagonal(&Vector6::new(1.0, 1.0, 1.0, 1.0, 5.0, 5.0));
        self.state = transition * self.state;
        self.covariance = transition * self.covariance * transition.transpose() + noise;
    }

    fn update(&mut self, detection: &SimpleSortDetection) {
        let mut observation = Matrix4x6::zeros();
        for index in 0..4 {
            observation[(index, index)] = 1.0;
        }
        let innovation = measurement(detection) - observation * self.state;
        let spread = observation * self.covariance * observation.transpose()
            + Matrix4::from_diagonal_element(5.0);
        let gain =
            self.covariance * observation.transpose() * spread.try_inverse().expect("invertible");
        self.state += gain * innovation;
        self.covariance = (Matrix6::identity() - gain * observation) * self.covariance;
    }

    fn bounds(&self) -> [f64; 4] {
        let s = &self.state;
        [
            s[0] - s[2] / 2.0,
            s[1] - s[3] / 2.0,
            s[0] + s[2] / 2.0,
            s[1] + s[3] / 2.0,
        ]
    }
}

fn iou(a: &[f64; 4], d: &SimpleSortDetection) -> f64 {
    let e = [f(d.x1), f(d.y1), f(d.x2), f(d.y2)];
    let width = (a[2].min(e[2]) - a[0].max(e[0])).max(0.0);
    let height = (a[3].min(e[3]) - a[1].max(e[1])).max(0.0);
    let intersection = width * height;
    let union = (a[2] - a[0]) * (a[3] - a[1]) + (e[2] - e[0]) * (e[3] - e[1]) - intersection;
    if union > 0.0 {
        intersection / union
    } else {
        0.0
    }
}

fn overlaps(motions: &[Motion], detections: &[SimpleSortDetection]) -> Vec<Vec<Binary64>> {
    motions
        .iter()
        .map(|motion| {
            let bounds = motion.bounds();
            detections.iter().map(|d| b(iou(&bounds, d))).collect()
        })
        .collect()
}

fn follow(motions: &mut Vec<Motion>, detections: &[SimpleSortDetection], frame: &FrameUpdate) {
    for &(track, d) in frame.first_matches.iter().chain(&frame.second_matches) {
        motions[track].update(&detections[d]);
    }
    for &d in &frame.created {
        motions.push(Motion::new(&detections[d]));
    }
    let mut left: Vec<Option<Motion>> = motions.drain(..).map(Some).collect();
    *motions = frame.kept.iter().map(|&k| left[k].take().unwrap()).collect();
}

struct Track {
    id: u64,
    confidence: f64,
    bounds: [f64; 4],
}

struct Stream {
    tracker: SimpleSort,
    motions: Vec<Motion>,
}

impl Stream {
    fn new(max_age: usize, min_hits: usize, iou_threshold: f64, starting_id: u64) -> Stream {
        Stream {
            tracker: SimpleSort::new(max_age, min_hits, b(iou_threshold), starting_id),
            motions: Vec::new(),
        }
    }

    fn new_with_confidence(
        max_age: usize,
        min_hits: usize,
        iou_threshold: f64,
        starting_id: u64,
        mode: SimpleSortConfidenceMode,
        threshold: f64,
    ) -> Stream {
        Stream {
            tracker: SimpleSort::new_with_confidence(
                max_age,
                min_hits,
                b(iou_threshold),
                starting_id,
                mode,
                b(threshold),
            ),
            motions: Vec::new(),
        }
    }

    fn update(&mut self, detections: &[SimpleSortDetection]) -> Vec<Track> {
        for motion in &mut self.motions {
            motion.predict();
        }
        let overlaps = overlaps(&self.motions, detections);
        assert!(self.tracker.can_update(detections, &overlaps));
        let frame = self.tracker.update(detections, &overlaps);
        follow(&mut self.motions, detections, &frame);
        assert_eq!(self.motions.len(), self.tracker.active_track_count());
        frame
            .reported
            .iter()
            .map(|track| Track {
                id: track.id,
                confidence: f(track.confidence),
                bounds: self.motions[track.place].bounds(),
            })
            .collect()
    }

    fn reset(&mut self, starting_id: u64) {
        self.tracker.reset(starting_id);
        self.motions.clear();
    }

    fn active_track_count(&self) -> usize {
        self.tracker.active_track_count()
    }
}

fn only_id(tracks: &[Track]) -> u64 {
    assert_eq!(tracks.len(), 1);
    tracks[0].id
}

/// Costs as whole units of 2^-53.
fn units(costs: &[Vec<f64>]) -> Vec<Vec<i64>> {
    costs
        .iter()
        .map(|row| {
            row.iter()
                .map(|cost| (cost * 9007199254740992.0).round() as i64)
                .collect()
        })
        .collect()
}

#[test]
fn rectangular_assignment_finds_global_minimum() {
    let costs = vec![vec![0.9, 0.1, 0.8], vec![0.2, 0.7, 0.3]];
    assert_eq!(linear_sum_assignment(&units(&costs)), vec![(0, 1), (1, 0)]);

    let tall = vec![vec![0.9, 0.2], vec![0.1, 0.7], vec![0.8, 0.3]];
    assert_eq!(linear_sum_assignment(&units(&tall)), vec![(0, 1), (1, 0)]);
}

#[test]
fn predicts_through_a_missed_frame_before_matching() {
    let mut tracker = Stream::new(2, 3, 0.1, 1);
    assert_eq!(
        only_id(&tracker.update(&[detection(0.0, 0.0, 10.0, 10.0, 0.9)])),
        1
    );
    assert_eq!(
        only_id(&tracker.update(&[detection(2.0, 0.0, 12.0, 10.0, 0.8)])),
        1
    );
    assert!(tracker.update(&[]).is_empty());
    assert_eq!(
        only_id(&tracker.update(&[detection(6.0, 0.0, 16.0, 10.0, 0.7)])),
        1
    );
}

#[test]
fn confidence_does_not_change_association() {
    let mut low_confidence = Stream::new(1, 3, 0.3, 1);
    let mut high_confidence = Stream::new(1, 3, 0.3, 1);
    low_confidence.update(&[detection(0.0, 0.0, 10.0, 10.0, 0.01)]);
    high_confidence.update(&[detection(0.0, 0.0, 10.0, 10.0, 1.0)]);

    let low = low_confidence.update(&[detection(2.0, 0.0, 12.0, 10.0, 0.01)]);
    let high = high_confidence.update(&[detection(2.0, 0.0, 12.0, 10.0, 1.0)]);
    assert_eq!(only_id(&low), only_id(&high));
}

#[test]
fn expires_after_max_age_and_reset_restores_id_sequence() {
    let mut tracker = Stream::new(1, 3, 0.1, 10);
    assert_eq!(
        only_id(&tracker.update(&[detection(0.0, 0.0, 10.0, 10.0, 0.9)])),
        10
    );
    tracker.update(&[]);
    tracker.update(&[]);
    assert_eq!(tracker.active_track_count(), 0);

    tracker.reset(3);
    assert_eq!(
        only_id(&tracker.update(&[detection(0.0, 0.0, 10.0, 10.0, 0.9)])),
        3
    );
}

#[test]
fn young_reacquired_track_obeys_min_hits_confirmation() {
    let mut tracker = Stream::new(3, 3, 0.1, 1);
    assert_eq!(
        only_id(&tracker.update(&[detection(0.0, 0.0, 10.0, 10.0, 0.9)])),
        1
    );
    tracker.update(&[]);
    tracker.update(&[]);

    assert!(tracker
        .update(&[detection(0.0, 0.0, 10.0, 10.0, 0.9)])
        .is_empty());
    assert_eq!(
        only_id(&tracker.update(&[detection(0.0, 0.0, 10.0, 10.0, 0.9)])),
        1
    );
}

#[test]
fn high_only_rejects_low_confidence_observations() {
    let mut tracker =
        Stream::new_with_confidence(3, 1, 0.1, 1, SimpleSortConfidenceMode::HighOnly, 0.8);
    assert!(tracker
        .update(&[detection(0.0, 0.0, 10.0, 10.0, 0.79)])
        .is_empty());
    assert_eq!(tracker.active_track_count(), 0);
    assert_eq!(
        only_id(&tracker.update(&[detection(0.0, 0.0, 10.0, 10.0, 0.8)])),
        1
    );
    assert!(tracker
        .update(&[detection(1.0, 0.0, 11.0, 10.0, 0.79)])
        .is_empty());
}

#[test]
fn two_stage_low_confidence_only_maintains_existing_tracks() {
    let mut tracker =
        Stream::new_with_confidence(3, 1, 0.1, 1, SimpleSortConfidenceMode::TwoStage, 0.8);
    assert!(tracker
        .update(&[detection(0.0, 0.0, 10.0, 10.0, 0.7)])
        .is_empty());
    assert_eq!(tracker.active_track_count(), 0);
    assert_eq!(
        only_id(&tracker.update(&[detection(0.0, 0.0, 10.0, 10.0, 0.9)])),
        1
    );
    assert_eq!(
        only_id(&tracker.update(&[detection(1.0, 0.0, 11.0, 10.0, 0.7)])),
        1
    );
}

#[test]
fn two_stage_associates_high_confidence_before_low_confidence() {
    let mut tracker =
        Stream::new_with_confidence(3, 1, 0.1, 1, SimpleSortConfidenceMode::TwoStage, 0.8);
    tracker.update(&[detection(0.0, 0.0, 10.0, 10.0, 0.9)]);
    let tracks = tracker.update(&[
        detection(0.0, 0.0, 10.0, 10.0, 0.3),
        detection(1.0, 0.0, 11.0, 10.0, 0.9),
    ]);
    assert_eq!(tracks.len(), 1);
    assert_eq!(tracks[0].id, 1);
    assert_eq!(tracks[0].confidence, 0.9);
    assert_eq!(tracker.active_track_count(), 1);
}

#[test]
fn reported_boxes_follow_the_detections() {
    let mut tracker = Stream::new(2, 1, 0.1, 1);
    let tracks = tracker.update(&[detection(0.0, 4.0, 10.0, 24.0, 0.9)]);
    assert_eq!(tracks[0].bounds, [0.0, 4.0, 10.0, 24.0]);
    let tracks = tracker.update(&[detection(2.0, 4.0, 12.0, 24.0, 0.5)]);
    assert_eq!(tracks[0].confidence, 0.5);
    assert!(tracks[0].bounds[0] > 1.0 && tracks[0].bounds[0] < 2.0);
}

struct Batch {
    batch: BatchSimpleSort,
    motions: HashMap<u64, Vec<Motion>>,
}

impl Batch {
    fn new(
        max_age: usize,
        min_hits: usize,
        iou_threshold: f64,
        starting_id: u64,
        mode: SimpleSortConfidenceMode,
        threshold: f64,
    ) -> Batch {
        Batch {
            batch: BatchSimpleSort::new(
                max_age,
                min_hits,
                b(iou_threshold),
                starting_id,
                mode,
                b(threshold),
            ),
            motions: HashMap::new(),
        }
    }

    /// One frame per scene; (scene, epoch, ids) of each.
    fn predict(&mut self, scenes: &[(u64, SimpleSortDetection)]) -> Vec<(u64, usize, Vec<u64>)> {
        let mut requests = Vec::new();
        for &(scene_id, d) in scenes {
            let motions = self.motions.entry(scene_id).or_default();
            for motion in motions.iter_mut() {
                motion.predict();
            }
            let detections = vec![d];
            let overlaps = overlaps(motions, &detections);
            requests.push(SceneRequest {
                scene_id,
                detections,
                overlaps,
            });
        }
        assert!(self.batch.can_predict(&requests));
        let updates = self.batch.predict(&requests);
        let mut results = Vec::new();
        for (request, update) in requests.iter().zip(&updates) {
            let motions = self.motions.get_mut(&request.scene_id).unwrap();
            follow(motions, &request.detections, &update.frame);
            results.push((
                update.scene_id,
                update.epoch,
                update.frame.reported.iter().map(|t| t.id).collect(),
            ));
        }
        results
    }

    fn skip(&mut self, scene_id: u64, n: usize) {
        let kept = self.batch.skip_epochs_for_scene(scene_id, n);
        let motions = self.motions.entry(scene_id).or_default();
        let mut left: Vec<Option<Motion>> = motions.drain(..).map(Some).collect();
        *motions = kept.iter().map(|&k| left[k].take().unwrap()).collect();
        for motion in motions {
            for _ in 0..n {
                motion.predict();
            }
        }
    }
}

/// A square box with its centre at (`x`, 5), 10 high.
fn bbox(x: f32) -> SimpleSortDetection {
    let width: f32 = 10.0 * 1.0;
    detection(
        f64::from(x - width / 2.0),
        f64::from(5.0f32 - 10.0f32 / 2.0),
        f64::from(x + width / 2.0),
        f64::from(5.0f32 + 10.0f32 / 2.0),
        f64::from(0.9f32),
    )
}

#[test]
fn predicts_multiple_scenes_with_unique_ids() {
    let mut tracker = Batch::new(2, 1, 0.1, 1, SimpleSortConfidenceMode::All, 0.8);
    let results = tracker.predict(&[(10, bbox(5.0)), (20, bbox(50.0))]);

    let first = &results[0];
    let second = &results[1];
    assert_ne!(first.0, second.0);
    assert_ne!(first.2[0], second.2[0]);
}

#[test]
fn skipped_scene_expires_tracks() {
    let mut tracker = Batch::new(1, 1, 0.1, 1, SimpleSortConfidenceMode::All, 0.8);
    let results = tracker.predict(&[(7, bbox(5.0))]);
    assert_eq!(results[0].2.len(), 1);

    tracker.skip(7, 2);
    let results = tracker.predict(&[(7, bbox(5.0))]);
    assert_ne!(results[0].2[0], 1);
}

#[test]
fn scenes_keep_their_tracks_and_share_identities() {
    let mut tracker = Batch::new(2, 1, 0.1, 1, SimpleSortConfidenceMode::All, 0.8);
    assert_eq!(
        tracker.predict(&[(10, bbox(5.0)), (20, bbox(5.0))]),
        vec![(10, 1, vec![1]), (20, 1, vec![2])]
    );
    assert_eq!(
        tracker.predict(&[(20, bbox(5.5)), (30, bbox(5.0)), (10, bbox(5.5))]),
        vec![(20, 2, vec![2]), (30, 1, vec![3]), (10, 2, vec![1])]
    );
    tracker.skip(10, 1);
    assert_eq!(
        tracker.predict(&[(10, bbox(6.5))]),
        vec![(10, 4, vec![1])]
    );
}
