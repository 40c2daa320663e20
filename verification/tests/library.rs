use simple_sort::assignment::linear_sum_assignment;
use simple_sort::association::assign_detections;
use simple_sort::batch::{BatchSimpleSort, SceneRequest};
use simple_sort::binary64::{Binary64, COST_ONE};
use simple_sort::confidence::{OptionsError, SimpleSortConfidenceMode};
use simple_sort::hungarian::hungarian_rows_le_columns;
use simple_sort::track::{SimpleSortDetection, TrackRecord};
use simple_sort::tracker::SimpleSort;

fn b(x: f64) -> Binary64 {
    Binary64::from_bits(x.to_bits())
}

fn seen(confidence: f64) -> SimpleSortDetection {
    SimpleSortDetection::new(b(0.0), b(0.0), b(1.0), b(1.0), b(confidence))
}

fn table(values: &[Vec<f64>]) -> Vec<Vec<Binary64>> {
    values
        .iter()
        .map(|row| row.iter().map(|x| b(*x)).collect())
        .collect()
}

struct Numbers(u64);

impl Numbers {
    fn below(&mut self, bound: u64) -> u64 {
        self.0 = self
            .0
            .wrapping_mul(6364136223846793005)
            .wrapping_add(1442695040888963407);
        (self.0 >> 33) % bound
    }
}

/// The least total cost, by trying everything.
fn least(costs: &[Vec<i64>], row: usize, taken: &mut Vec<bool>, left: usize) -> i64 {
    if left == 0 {
        return 0;
    }
    if costs.len() - row < left {
        return i64::MAX / 4;
    }
    let mut best = if costs.len() - row > left {
        least(costs, row + 1, taken, left)
    } else {
        i64::MAX / 4
    };
    for column in 0..taken.len() {
        if !taken[column] {
            taken[column] = true;
            let rest = least(costs, row + 1, taken, left - 1);
            taken[column] = false;
            best = best.min(costs[row][column] + rest);
        }
    }
    best
}

#[test]
fn assignments_are_cheapest_and_sorted() {
    let mut numbers = Numbers(7);
    for _ in 0..300 {
        let rows = 1 + numbers.below(5) as usize;
        let columns = 1 + numbers.below(5) as usize;
        let spread = 1 + numbers.below(12);
        let costs: Vec<Vec<i64>> = (0..rows)
            .map(|_| {
                (0..columns)
                    .map(|_| numbers.below(spread) as i64 - 4)
                    .collect()
            })
            .collect();
        let pairs = linear_sum_assignment(&costs);
        assert_eq!(pairs.len(), rows.min(columns));
        for k in 1..pairs.len() {
            assert!(pairs[k - 1].0 < pairs[k].0);
        }
        let mut taken = vec![false; columns];
        for &(_, column) in &pairs {
            assert!(!taken[column]);
            taken[column] = true;
        }
        let total: i64 = pairs.iter().map(|&(i, j)| costs[i][j]).sum();
        let expected = least(&costs, 0, &mut vec![false; columns], rows.min(columns));
        assert_eq!(total, expected);
    }
}

#[test]
fn ties_go_to_the_first_columns() {
    assert_eq!(
        linear_sum_assignment(&[vec![1, 1], vec![1, 1]]),
        vec![(0, 0), (1, 1)]
    );
    assert_eq!(
        linear_sum_assignment(&[vec![1, 1, 1], vec![1, 1, 1]]),
        vec![(0, 0), (1, 1)]
    );
    assert_eq!(
        linear_sum_assignment(&[vec![1, 1], vec![1, 1], vec![1, 1]]),
        vec![(0, 0), (1, 1)]
    );
}

#[test]
fn empty_matrices_have_empty_assignments() {
    assert!(linear_sum_assignment(&[]).is_empty());
    assert!(linear_sum_assignment(&[vec![], vec![]]).is_empty());
    assert_eq!(linear_sum_assignment(&[vec![5]]), vec![(0, 0)]);
}

#[test]
fn extreme_costs_do_not_overflow() {
    let costs = [vec![i64::MIN, i64::MAX], vec![i64::MIN, i64::MAX]];
    assert_eq!(hungarian_rows_le_columns(&costs).len(), 2);
    let costs = [vec![i64::MAX, i64::MIN], vec![i64::MIN, i64::MAX]];
    assert_eq!(hungarian_rows_le_columns(&costs), vec![(0, 1), (1, 0)]);
}

#[test]
fn comparison_is_that_of_the_numbers() {
    let samples = [
        0.0,
        -0.0,
        1.0,
        -1.0,
        0.79,
        0.8,
        f64::MIN_POSITIVE,
        5e-324,
        -5e-324,
        f64::MAX,
        f64::INFINITY,
        f64::NEG_INFINITY,
        f64::NAN,
        -f64::NAN,
    ];
    for x in samples {
        for y in samples {
            assert_eq!(b(x).ge(b(y)), x >= y);
        }
        assert_eq!(b(x).is_unit(), (0.0..=1.0).contains(&x));
    }
}

#[test]
fn cost_is_one_less_the_overlap() {
    let mut numbers = Numbers(11);
    let mut samples = vec![
        0.0,
        -0.0,
        1.0,
        0.5,
        0.25,
        0.1,
        0.9,
        5e-324,
        f64::EPSILON,
        f64::EPSILON / 2.0,
        f64::EPSILON / 4.0,
        f64::EPSILON * 3.0 / 4.0,
        f64::EPSILON * 3.0 / 8.0,
        1.0 - f64::EPSILON / 2.0,
    ];
    for _ in 0..2000 {
        let bits = numbers.below(1 << 31) << 31 | numbers.below(1 << 31);
        let exponent = 1022 - numbers.below(60);
        samples.push(f64::from_bits(exponent << 52 | bits & 0xf_ffff_ffff_ffff));
    }
    for x in samples {
        assert_eq!(b(x).cost(), ((1.0 - x) * 9007199254740992.0) as i64);
    }
    assert_eq!(b(0.0).cost(), COST_ONE);
    assert_eq!(b(1.0).cost(), 0);
    assert_eq!(b(0.75).cost(), COST_ONE / 4);
    assert!(b(0.3).cost() > b(0.4).cost());
}

#[test]
fn names_of_modes() {
    let named = SimpleSortConfidenceMode::from_name;
    assert_eq!(named("all"), Some(SimpleSortConfidenceMode::All));
    assert_eq!(named("high_only"), Some(SimpleSortConfidenceMode::HighOnly));
    assert_eq!(named("two_stage"), Some(SimpleSortConfidenceMode::TwoStage));
    assert_eq!(named("All"), None);
    assert_eq!(named(""), None);
    assert_eq!(
        SimpleSortConfidenceMode::default(),
        SimpleSortConfidenceMode::All
    );
}

#[test]
fn options_are_checked_in_turn() {
    let make = |iou: f64, mode: &str, high: f64| {
        SimpleSort::from_options(8, 3, b(iou), 1, mode, b(high)).map(|t| t.next_id())
    };
    assert_eq!(make(0.15, "all", 0.8), Ok(1));
    assert_eq!(make(1.5, "none", 2.0), Err(OptionsError::IouThreshold));
    assert_eq!(make(f64::NAN, "all", 0.8), Err(OptionsError::IouThreshold));
    assert_eq!(make(0.0, "none", 2.0), Err(OptionsError::ConfidenceMode));
    assert_eq!(
        make(1.0, "two_stage", -0.1),
        Err(OptionsError::HighConfidenceThreshold)
    );

    let batch = |iou: f64, mode: &str, high: f64| {
        BatchSimpleSort::from_options(8, 3, b(iou), 1, mode, b(high))
            .map(|t| t.current_epoch_with_scene(0))
    };
    assert_eq!(batch(0.15, "high_only", 0.8), Ok(0));
    assert_eq!(batch(1.5, "none", 2.0), Err(OptionsError::ConfidenceMode));
    assert_eq!(batch(1.5, "all", 2.0), Err(OptionsError::IouThreshold));
    assert_eq!(
        batch(0.5, "all", 2.0),
        Err(OptionsError::HighConfidenceThreshold)
    );
}

#[test]
fn threshold_applies_after_assignment() {
    // The cheapest assignment pairs the second track with the first detection
    // and the first track with a detection that it hardly overlaps.
    let overlaps = table(&[vec![0.6, 0.05], vec![0.9, 0.0]]);
    let all = [0usize, 1];
    assert_eq!(
        assign_detections(&overlaps, &all, &all, b(0.1)),
        vec![(1, 0)]
    );
    assert_eq!(
        assign_detections(&overlaps, &all, &all, b(0.05)),
        vec![(0, 1), (1, 0)]
    );
    assert_eq!(assign_detections(&overlaps, &all, &all, b(0.95)), vec![]);
    assert_eq!(assign_detections(&overlaps, &[0], &all, b(0.1)), vec![(0, 0)]);
    assert_eq!(assign_detections(&overlaps, &[], &all, b(0.1)), vec![]);
    assert_eq!(assign_detections(&overlaps, &all, &[], b(0.1)), vec![]);
}

#[test]
fn a_track_record_counts_frames_and_detections() {
    let mut track = TrackRecord::new(4, &seen(0.9));
    assert_eq!((track.id, track.hits, track.age), (4, 1, 0));
    track.predict();
    track.predict();
    assert_eq!((track.age, track.time_since_update), (2, 2));
    assert!(!track.is_reportable(3));
    track.update(&seen(0.4));
    assert_eq!((track.hits, track.age, track.time_since_update), (2, 2, 0));
    assert_eq!(f64::from_bits(track.confidence.bits), 0.4);
    assert!(track.is_reportable(3));
    track.predict();
    track.update(&seen(0.4));
    assert!(track.is_reportable(3));
    assert!(!track.is_reportable(4) || track.age < 4);
    assert_eq!(track.output(7).place, 7);
}

#[test]
fn a_frame_matches_creates_keeps_and_reports() {
    let mut tracker = SimpleSort::new(1, 1, b(0.3), 5);
    let frame = tracker.update(&[seen(0.9), seen(0.1)], &[]);
    assert_eq!(frame.created, vec![0, 1]);
    assert_eq!(frame.kept, vec![0, 1]);
    assert_eq!(
        frame.reported.iter().map(|t| t.id).collect::<Vec<u64>>(),
        vec![5, 6]
    );
    assert_eq!(tracker.next_id(), 7);

    // The first track is missed; the second detection is new.
    let frame = tracker.update(
        &[seen(0.5), seen(0.6)],
        &table(&[vec![0.1, 0.0], vec![0.8, 0.0]]),
    );
    assert_eq!(frame.first_matches, vec![(1, 0)]);
    assert!(frame.second_matches.is_empty());
    assert_eq!(frame.created, vec![1]);
    assert_eq!(frame.kept, vec![0, 1, 2]);
    assert_eq!(
        frame
            .reported
            .iter()
            .map(|t| (t.id, t.place))
            .collect::<Vec<(u64, usize)>>(),
        vec![(6, 1), (7, 2)]
    );

    // Missed again, it is dropped.
    let frame = tracker.update(&[], &[vec![], vec![], vec![]]);
    assert_eq!(frame.kept, vec![1, 2]);
    assert!(frame.reported.is_empty());
    assert_eq!(
        tracker.tracks().iter().map(|t| t.id).collect::<Vec<u64>>(),
        vec![6, 7]
    );
}

#[test]
fn low_confidence_takes_what_the_first_pass_leaves() {
    let mut tracker = SimpleSort::new_with_confidence(
        3,
        1,
        b(0.3),
        1,
        SimpleSortConfidenceMode::TwoStage,
        b(0.8),
    );
    let frame = tracker.update(&[seen(0.9), seen(0.8), seen(0.7), seen(f64::NAN)], &[]);
    assert_eq!(frame.created, vec![0, 1]);

    let frame = tracker.update(
        &[seen(0.2), seen(0.9), seen(0.3)],
        &table(&[vec![1.0, 0.5, 0.4], vec![0.9, 0.4, 0.2]]),
    );
    assert_eq!(frame.first_matches, vec![(0, 1)]);
    assert_eq!(frame.second_matches, vec![(1, 0)]);
    assert!(frame.created.is_empty());
    assert_eq!(tracker.active_track_count(), 2);
}

#[test]
fn high_only_ignores_low_confidence() {
    let mut tracker = SimpleSort::new_with_confidence(
        3,
        1,
        b(0.3),
        1,
        SimpleSortConfidenceMode::HighOnly,
        b(0.8),
    );
    tracker.update(&[seen(0.9)], &[]);
    let frame = tracker.update(&[seen(0.2), seen(0.1)], &table(&[vec![1.0, 1.0]]));
    assert!(frame.first_matches.is_empty());
    assert!(frame.second_matches.is_empty());
    assert!(frame.created.is_empty());
    assert_eq!(tracker.tracks()[0].time_since_update, 1);
}

#[test]
fn skipping_is_waiting() {
    let mut tracker = SimpleSort::new(4, 1, b(0.3), 1);
    tracker.update(&[seen(0.9)], &[]);
    tracker.update(&[seen(0.9)], &table(&[vec![0.0]]));
    let mut other = tracker.clone();
    assert_eq!(tracker.skip_frames(0), vec![0, 1]);
    assert_eq!(tracker.skip_frames(2), vec![0, 1]);
    assert_eq!(tracker.skip_frames(2), vec![1]);
    assert_eq!(other.skip_frames(4), vec![1]);
    assert_eq!(tracker.tracks()[0].age, other.tracks()[0].age);
    assert_eq!(tracker.tracks()[0].time_since_update, 4);
    assert!(tracker.skip_frames(1).is_empty());
}

#[test]
fn reset_and_next_identity() {
    let mut tracker = SimpleSort::new(4, 1, b(0.3), 1);
    tracker.update(&[seen(0.9)], &[]);
    tracker.set_next_id(40);
    assert_eq!(tracker.next_id(), 40);
    assert_eq!(tracker.active_track_count(), 1);
    tracker.reset(9);
    assert_eq!(tracker.next_id(), 9);
    assert_eq!(tracker.active_track_count(), 0);
    assert_eq!(tracker.update(&[seen(0.9)], &[]).reported[0].id, 9);
}

#[test]
fn identities_run_out() {
    let mut tracker = SimpleSort::new(4, 1, b(0.3), u64::MAX - 1);
    assert!(tracker.can_update(&[seen(0.9)], &[]));
    assert!(!tracker.can_update(&[seen(0.9), seen(0.9)], &[]));
    assert_eq!(
        tracker.update(&[seen(0.9)], &[]).reported[0].id,
        u64::MAX - 1
    );
    assert!(!tracker.can_update(&[seen(0.9)], &table(&[vec![0.2]])));
    // A detection that matches needs no identity.
    assert!(tracker.can_update(&[seen(0.9)], &table(&[vec![0.9]])));
    let frame = tracker.update(&[seen(0.9)], &table(&[vec![0.9]]));
    assert_eq!(frame.first_matches, vec![(0, 0)]);
    assert_eq!(tracker.next_id(), u64::MAX);

    let mut batch = BatchSimpleSort::new(
        4,
        1,
        b(0.3),
        u64::MAX - 1,
        SimpleSortConfidenceMode::All,
        b(0.8),
    );
    let request = |scene_id: u64| SceneRequest {
        scene_id,
        detections: vec![seen(0.9)],
        overlaps: vec![],
    };
    assert!(batch.can_predict(&vec![request(1)]));
    assert!(!batch.can_predict(&vec![request(1), request(2)]));
    batch.predict(&vec![request(1)]);
    let again = |overlap: f64| SceneRequest {
        scene_id: 1,
        detections: vec![seen(0.9)],
        overlaps: table(&[vec![overlap]]),
    };
    assert!(!batch.can_predict(&vec![again(0.2)]));
    assert!(!batch.can_predict(&vec![again(0.9), request(2)]));
    assert!(batch.can_predict(&vec![again(0.9)]));
    assert_eq!(
        batch.predict(&vec![again(0.9)])[0].frame.first_matches,
        vec![(0, 0)]
    );
}

#[test]
fn epochs_count_frames_of_a_scene() {
    let mut batch =
        BatchSimpleSort::new(4, 1, b(0.3), 1, SimpleSortConfidenceMode::All, b(0.8));
    assert_eq!(batch.current_epoch_with_scene(3), 0);
    assert!(batch.skip_epochs_for_scene(3, 2).is_empty());
    assert_eq!(batch.current_epoch_with_scene(3), 2);
    let updates = batch.predict(&vec![SceneRequest {
        scene_id: 3,
        detections: vec![seen(0.9), seen(0.8)],
        overlaps: vec![],
    }]);
    assert_eq!(updates[0].epoch, 3);
    assert_eq!(batch.current_epoch_with_scene(3), 3);
    assert_eq!(batch.skip_epochs_for_scene(3, 0), vec![0, 1]);
    assert_eq!(batch.skip_epochs_for_scene(3, 4), vec![0, 1]);
    assert!(batch.skip_epochs_for_scene(3, 1).is_empty());
    batch.clear_wasted();
    assert_eq!(batch.current_epoch_with_scene(3), 8);
    assert_eq!(batch.current_epoch_with_scene(4), 0);
    assert!(batch.predict(&vec![]).is_empty());
}

#[test]
fn equality_is_that_of_the_numbers() {
    assert!(b(0.0) == b(-0.0));
    assert!(b(1.0) == b(1.0));
    assert!(b(1.0) != b(2.0));
    assert!(b(f64::NAN) != b(f64::NAN));
    assert!(seen(0.5) == seen(0.5));
    assert!(seen(0.5) != seen(0.6));
    assert!(seen(f64::NAN) != seen(f64::NAN));
    let track = TrackRecord::new(4, &seen(0.9));
    assert!(track.output(1) == track.output(1));
    assert!(track.output(1) != track.output(2));
}

#[test]
fn a_skipped_frame_is_a_frame_without_detections() {
    let make = || {
        let mut batch =
            BatchSimpleSort::new(2, 1, b(0.3), 1, SimpleSortConfidenceMode::All, b(0.8));
        batch.predict(&vec![SceneRequest {
            scene_id: 3,
            detections: vec![seen(0.9), seen(0.8)],
            overlaps: vec![],
        }]);
        batch
    };
    let (mut skipped, mut answered) = (make(), make());
    assert_eq!(skipped.skip_epochs_for_scene(3, 1), vec![0, 1]);
    let updates = answered.predict(&vec![SceneRequest {
        scene_id: 3,
        detections: vec![],
        overlaps: vec![vec![], vec![]],
    }]);
    assert_eq!(updates[0].frame.kept, vec![0, 1]);
    assert_eq!(
        skipped.current_epoch_with_scene(3),
        answered.current_epoch_with_scene(3)
    );
    assert_eq!(skipped.skip_epochs_for_scene(3, 1), vec![0, 1]);
    assert!(skipped.skip_epochs_for_scene(3, 1).is_empty());
}

fn frames(tracker: &mut SimpleSort, confidences: &[f64]) -> Vec<(usize, Vec<(u64, usize)>)> {
    let overlaps = [vec![0.7, 0.1], vec![0.2, 0.6]];
    confidences
        .chunks(2)
        .map(|pair| {
            let detections: Vec<SimpleSortDetection> = pair.iter().map(|c| seen(*c)).collect();
            let rows: Vec<Vec<f64>> = (0..tracker.active_track_count())
                .map(|t| overlaps[t % 2].clone())
                .collect();
            let frame = tracker.update(&detections, &table(&rows));
            let reported = frame.reported.iter().map(|r| (r.id, r.place)).collect();
            (frame.created.len(), reported)
        })
        .collect()
}

#[test]
fn confidences_on_the_same_side_of_the_threshold_count_alike() {
    let modes = [
        SimpleSortConfidenceMode::HighOnly,
        SimpleSortConfidenceMode::TwoStage,
    ];
    for mode in modes {
        let make = || SimpleSort::new_with_confidence(2, 1, b(0.3), 1, mode, b(0.8));
        let a = frames(&mut make(), &[0.9, 0.8, 0.95, 0.1, 0.2, 0.85]);
        let c = frames(&mut make(), &[0.8, 1.0, 0.8, 0.79, 0.0, 0.99]);
        assert_eq!(a, c);
        assert_eq!(a[0], (2, vec![(1, 0), (2, 1)]));
    }
}

#[test]
fn high_only_is_filtering() {
    let make = || {
        let mut tracker = SimpleSort::new_with_confidence(
            3,
            1,
            b(0.3),
            1,
            SimpleSortConfidenceMode::HighOnly,
            b(0.8),
        );
        tracker.update(&[seen(0.9), seen(0.9)], &[]);
        tracker
    };
    let (mut all, mut high) = (make(), make());
    let frame = all.update(
        &[seen(0.1), seen(0.9), seen(0.2), seen(0.95), seen(0.8)],
        &table(&[
            vec![1.0, 0.1, 0.9, 0.6, 0.0],
            vec![1.0, 0.7, 0.9, 0.5, 0.0],
        ]),
    );
    let fewer = high.update(
        &[seen(0.9), seen(0.95), seen(0.8)],
        &table(&[vec![0.1, 0.6, 0.0], vec![0.7, 0.5, 0.0]]),
    );
    assert_eq!(frame.first_matches, vec![(0, 3), (1, 1)]);
    assert_eq!(fewer.first_matches, vec![(0, 1), (1, 0)]);
    assert_eq!(frame.created, vec![4]);
    assert_eq!(fewer.created, vec![2]);
    assert_eq!(frame.kept, fewer.kept);
    assert!(frame.reported == fewer.reported);
}

#[test]
fn a_scene_is_like_a_tracker_of_its_own() {
    let mut batch = BatchSimpleSort::new(1, 1, b(0.3), 100, SimpleSortConfidenceMode::All, b(0.8));
    let mut own = SimpleSort::new(1, 1, b(0.3), 1);
    let scene = |scene_id: u64, detections: usize, overlaps: &[Vec<f64>]| SceneRequest {
        scene_id,
        detections: (0..detections).map(|_| seen(0.9)).collect(),
        overlaps: table(overlaps),
    };
    let course = [
        (2, vec![]),
        (1, vec![vec![0.1], vec![0.9]]),
        (2, vec![vec![0.0, 0.8], vec![0.0, 0.0]]),
        (1, vec![vec![0.9], vec![0.0], vec![0.0]]),
    ];
    let mut live_elsewhere = 0;
    let mut named: Vec<(u64, u64)> = Vec::new();
    let mut last = 99;
    for (detections, overlaps) in course {
        let elsewhere = vec![vec![0.0]; live_elsewhere];
        let updates = batch.predict(&vec![
            scene(5, 1, &elsewhere),
            scene(7, detections, &overlaps),
        ]);
        live_elsewhere = updates[0].frame.kept.len();
        let request = scene(7, detections, &overlaps);
        let frame = own.update(&request.detections, &request.overlaps);
        let theirs = &updates[1].frame.reported;
        assert_eq!(frame.reported.len(), theirs.len());
        for (a, c) in frame.reported.iter().zip(theirs) {
            assert_eq!(a.place, c.place);
            assert!(a.confidence == c.confidence);
            named.push((a.id, c.id));
        }
        // What is new exceeds all that was reported before.
        for update in &updates {
            for report in &update.frame.reported {
                if report.id > last {
                    last = report.id;
                } else {
                    assert!(named.iter().any(|(_, id)| *id == report.id));
                }
            }
        }
    }
    named.sort_unstable();
    named.dedup();
    for pair in named.windows(2) {
        assert!(pair[0].0 < pair[1].0 && pair[0].1 < pair[1].1);
    }
    assert_eq!(named[0], (1, 101));
    assert!(named.len() >= 3);
}
