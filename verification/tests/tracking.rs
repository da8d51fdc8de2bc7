//! The tracker with boxes and a motion filter around it, frame by frame.

use kfilter::measurement::LinearMeasurement;
use kfilter::system::LinearNoInputSystem;
use kfilter::{Kalman1M, KalmanFilter, KalmanPredict};
use nalgebra::{SMatrix, SVector};
use oc_sort::{
    associate_detections_to_trackers, Detection, FilterStep, IdAllocator, KalmanBoxTracker, OCSort,
    UpdatePlan, UpdateSchedule,
};
use pathfinding::matrix::Matrix;
use std::collections::VecDeque;
use std::f64::consts::PI;

#[derive(Clone, Copy, Debug, Default)]
struct BBox {
    x_1: f64,
    y_1: f64,
    x_2: f64,
    y_2: f64,
}

impl BBox {
    fn new(x_1: f64, y_1: f64, x_2: f64, y_2: f64) -> Self {
        if x_1 > x_2 || y_1 > y_2 {
            return BBox::default();
        }
        BBox { x_1, y_1, x_2, y_2 }
    }

    fn from_state_vector(state: &SVector<f64, 7>) -> Self {
        if state[2] < 0.0 || state[3] < 0.0 {
            return BBox::default();
        }
        let w = (state[2] * state[3]).sqrt();
        if w == 0.0 {
            return BBox::default();
        }
        let h = state[2] / w;
        BBox::new(state[0] - w / 2.0, state[1] - h / 2.0, state[0] + w / 2.0, state[1] + h / 2.0)
    }

    fn to_observation_vector(&self) -> SVector<f64, 4> {
        let w = (self.x_2 - self.x_1).max(0.0);
        let h = (self.y_2 - self.y_1).max(0.0);
        SVector::<f64, 4>::new(
            self.x_1 + w / 2.0,
            self.y_1 + h / 2.0,
            w * h,
            w / (h + f64::EPSILON),
        )
    }

    fn area(&self) -> f64 {
        ((self.x_2 - self.x_1) * (self.y_2 - self.y_1)).max(0.0)
    }

    fn iou(&self, other: &Self) -> f64 {
        let iwidth = (self.x_2.min(other.x_2) - self.x_1.max(other.x_1)).max(0.0);
        let iheight = (self.y_2.min(other.y_2) - self.y_1.max(other.y_1)).max(0.0);
        let iarea = iwidth * iheight;
        let union = self.area() + other.area() - iarea;
        if union == 0.0 {
            return 0.0;
        }
        iarea / union
    }

    fn speed_direction(&self, other: &Self) -> SVector<f64, 2> {
        let here = self.to_observation_vector();
        let there = other.to_observation_vector();
        let diff = SVector::<f64, 2>::new(here[0] - there[0], here[1] - there[1]);
        let norm = diff.norm();
        if norm > 0.0 {
            return diff / norm;
        }
        SVector::<f64, 2>::zeros()
    }
}

type Filter = Kalman1M<f64, 7, 0, 4, LinearNoInputSystem<f64, 7>, LinearMeasurement<f64, 7, 4>>;

/// The numeric state that goes with one tracker of the library.
struct Numerics {
    filter: Filter,
    observations: VecDeque<BBox>,
    speed_direction: SVector<f64, 2>,
}

impl Numerics {
    fn new(bbox: BBox) -> Self {
        let mut transition = SMatrix::<f64, 7, 7>::identity();
        transition[(0, 4)] = 1.0;
        transition[(1, 5)] = 1.0;
        transition[(2, 6)] = 1.0;
        let process_noise = SMatrix::<f64, 7, 7>::from_diagonal(&SVector::<f64, 7>::from_vec(
            vec![1.0, 1.0, 1.0, 1.0, 0.01, 0.01, 0.0001],
        ));
        let observation = bbox.to_observation_vector();
        let mut initial = SVector::<f64, 7>::zeros();
        for row in 0..4 {
            initial[row] = observation[row];
        }
        let system = LinearNoInputSystem::new(transition, process_noise, initial);
        let covariance = SMatrix::<f64, 7, 7>::from_diagonal(&SVector::<f64, 7>::from_vec(vec![
            10.0, 10.0, 10.0, 10.0, 10000.0, 10000.0, 10000.0,
        ]));
        let measurement = LinearMeasurement::new(
            SMatrix::<f64, 4, 7>::identity(),
            SMatrix::<f64, 4, 4>::from_diagonal(&SVector::<f64, 4>::new(1.0, 1.0, 10.0, 10.0)),
            observation,
        );
        Numerics {
            filter: Kalman1M::new_custom(system, covariance, measurement),
            observations: VecDeque::from([bbox]),
            speed_direction: SVector::<f64, 2>::zeros(),
        }
    }

    fn bbox(&self) -> BBox {
        BBox::from_state_vector(self.filter.state())
    }

    fn predict(&mut self) -> BBox {
        let state = *self.filter.predict().unwrap();
        BBox::from_state_vector(&state)
    }

    fn update(&mut self, bbox: BBox, plan: UpdatePlan) {
        self.speed_direction = bbox.speed_direction(&self.observations[plan.reference.index]);
        let last = self.observations.back().unwrap().to_observation_vector();
        let new = bbox.to_observation_vector();
        let mut schedule = UpdateSchedule::new(plan.steps_between);
        loop {
            match schedule.next_step() {
                Some(FilterStep::Update { numerator, denominator }) => {
                    let t = numerator as f64;
                    let k = denominator as f64;
                    self.filter.update((k - t) / k * last + t / k * new).unwrap();
                }
                Some(FilterStep::Predict) => {
                    self.filter.predict().unwrap();
                }
                None => break,
            }
        }
        if plan.dropped_oldest {
            self.observations.pop_front();
        }
        self.observations.push_back(bbox);
    }
}

fn overlap_cost(a: &BBox, b: &BBox) -> i64 {
    -((a.iou(b) * 10000.0).round() as i64)
}

fn momentum_cost(inertia: &SVector<f64, 2>, from: &BBox, to: &BBox) -> i64 {
    let angle = inertia.dot(&to.speed_direction(from)).clamp(-1.0, 1.0).acos();
    ((angle - PI) / PI * 0.2 * 10000.0).round() as i64
}

fn score_key(score: f64) -> u64 {
    if score > 0.0 {
        score.to_bits()
    } else {
        0
    }
}

#[derive(Clone, Copy)]
struct BoxDetection {
    bbox: BBox,
    class: u32,
    score: f64,
}

#[derive(Debug)]
struct BoxTrack {
    id: u32,
    bbox: BBox,
    class: u32,
}

/// The three cost tables of a frame.
fn cost_tables(
    detections: &[BoxDetection],
    trackers: &[KalmanBoxTracker],
    numerics: &[Numerics],
) -> (Matrix<i64>, Matrix<i64>, Matrix<i64>) {
    if detections.is_empty() || numerics.is_empty() {
        return (Matrix::new(0, 0, 0), Matrix::new(0, 0, 0), Matrix::new(0, 0, 0));
    }
    let rows = detections.len();
    let columns = numerics.len();
    let iou_predicted = Matrix::from_fn(rows, columns, |(i, j)| {
        overlap_cost(&detections[i].bbox, &numerics[j].bbox())
    });
    let momentum = Matrix::from_fn(rows, columns, |(i, j)| {
        let reference = trackers[j].get_observation_dt_time_steps_away();
        momentum_cost(
            &numerics[j].speed_direction,
            &numerics[j].observations[reference.index],
            &detections[i].bbox,
        )
    });
    let iou_observed = Matrix::from_fn(rows, columns, |(i, j)| {
        overlap_cost(&detections[i].bbox, numerics[j].observations.back().unwrap())
    });
    (iou_predicted, momentum, iou_observed)
}

/// The library's tracker with the numeric state of its tracks beside it.
struct BoxTracker {
    core: OCSort,
    numerics: Vec<Numerics>,
    ids: IdAllocator,
}

impl BoxTracker {
    fn new(
        max_age: u32,
        iou_threshold: f64,
        delta_t: u32,
        score_threshold: f64,
        min_hit_streak: u32,
    ) -> Self {
        BoxTracker {
            core: OCSort::new(
                max_age,
                (iou_threshold * 10000.0).ceil() as i64,
                delta_t,
                score_key(score_threshold),
                min_hit_streak,
            ),
            numerics: Vec::new(),
            ids: IdAllocator::new(),
        }
    }

    fn update(&mut self, detections: &[BoxDetection]) -> Vec<BoxTrack> {
        for numerics in self.numerics.iter_mut() {
            numerics.predict();
        }
        assert!(self.core.can_predict());
        let survived = self.core.predict();
        let mut survived = survived.iter();
        self.numerics.retain(|_| *survived.next().unwrap());
        assert_eq!(self.numerics.len(), self.core.trackers().len());

        let plain: Vec<Detection> = detections
            .iter()
            .map(|detection| Detection {
                class: detection.class,
                score: score_key(detection.score),
            })
            .collect();
        let (iou_predicted, momentum, iou_observed) =
            cost_tables(detections, self.core.trackers(), &self.numerics);
        assert!(self.core.can_update(plain.len()));
        let outcome =
            self.core.update(&plain, &iou_predicted, &momentum, &iou_observed, &mut self.ids);
        for matched in outcome.matched.iter() {
            self.numerics[matched.tracker].update(detections[matched.detection].bbox, matched.plan);
        }
        for &detection in outcome.born.iter() {
            self.numerics.push(Numerics::new(detections[detection].bbox));
        }
        outcome
            .tracks
            .iter()
            .map(|track| BoxTrack {
                id: track.id,
                bbox: self.numerics[track.index].bbox(),
                class: track.class,
            })
            .collect()
    }
}

fn detection(x_1: f64, y_1: f64, x_2: f64, y_2: f64, class: u32, score: f64) -> BoxDetection {
    BoxDetection { bbox: BBox::new(x_1, y_1, x_2, y_2), class, score }
}

fn corner_distance(a: &BBox, b: &BBox) -> f64 {
    (a.x_1 - b.x_1).abs() + (a.y_1 - b.y_1).abs() + (a.x_2 - b.x_2).abs() + (a.y_2 - b.y_2).abs()
}

#[test]
fn test_associate_detections_to_trackers_returns_correct_matching() {
    let detections =
        vec![detection(0.0, 0.0, 1.0, 1.0, 0, 0.7), detection(2.0, 3.0, 4.0, 4.0, 0, 0.8)];
    let plain: Vec<Detection> = detections
        .iter()
        .map(|detection| Detection { class: detection.class, score: score_key(detection.score) })
        .collect();
    let detection_indices = vec![0, 1];

    let mut ids = IdAllocator::new();
    let trackers = vec![KalmanBoxTracker::new(0, 3, &mut ids)];
    let numerics = vec![Numerics::new(BBox::new(0.5, 0.0, 1.5, 1.0))];
    let tracker_indices = vec![0];

    let iou_threshold = 0.3;
    let (iou_predicted, momentum, _) = cost_tables(&detections, &trackers, &numerics);

    let (matched_indices, unmatched_detection_indices, unmatched_tracker_indices) =
        associate_detections_to_trackers(
            &plain,
            &detection_indices,
            &trackers,
            &tracker_indices,
            (iou_threshold * 10000.0_f64).ceil() as i64,
            &iou_predicted,
            &momentum,
        );

    assert_eq!(matched_indices, vec![(0, 0)]);
    assert_eq!(unmatched_detection_indices, vec![1]);
    assert_eq!(unmatched_tracker_indices, Vec::<usize>::new());
}

#[test]
fn test_new_succeeds() {
    let bbox = BBox::new(1.0, 1.0, 2.0, 2.0);
    let mut ids = IdAllocator::new();
    KalmanBoxTracker::new(3, 0, &mut ids);
    Numerics::new(bbox);
}

#[test]
fn test_predict_advances_bbox() {
    let bbox_1 = BBox::new(0.0, 0.0, 1.0, 1.0);
    let bbox_2 = BBox::new(0.5, 0.0, 1.5, 1.0);

    let mut ids = IdAllocator::new();
    let mut tracker = KalmanBoxTracker::new(1, 1, &mut ids);
    let mut numerics = Numerics::new(bbox_1);
    tracker.predict();
    numerics.predict();
    let plan = tracker.update();
    numerics.update(bbox_2, plan);

    tracker.predict();
    let bbox_3 = numerics.predict();
    let tolerance = 0.01;

    assert!((bbox_3.x_1 - 1.0).abs() < tolerance);
    assert!((bbox_3.y_1 - 0.0).abs() < tolerance);
    assert!((bbox_3.x_2 - 2.0).abs() < tolerance);
    assert!((bbox_3.y_2 - 1.0).abs() < tolerance);
}

#[test]
fn test_update_reassociates_lost_object() {
    let mut oc_sort_tracker = BoxTracker::new(5, 0.3, 3, 0.5, 1);
    let detections = vec![detection(0.0, 0.0, 1.0, 1.0, 1, 0.7)];

    let first = oc_sort_tracker.update(&detections);
    let detections = vec![detection(0.5, 0.0, 1.5, 1.0, 1, 0.6)];
    oc_sort_tracker.update(&detections);

    oc_sort_tracker.update(&Vec::new());

    let detections = vec![detection(1.5, 0.0, 2.5, 1.0, 1, 0.8)];
    let tracks = oc_sort_tracker.update(&detections);

    assert_eq!(tracks.len(), 1);

    let tolerance = 0.1;
    let track = &tracks[0];
    assert_eq!(track.class, 1);
    assert!((track.bbox.x_1 - 1.5).abs() <= tolerance);
    assert!((track.bbox.x_2 - 2.5).abs() <= tolerance);
    assert!((track.bbox.y_1 - 0.0).abs() <= tolerance);
    assert!((track.bbox.y_2 - 1.0).abs() <= tolerance);
    assert_eq!(track.id, first[0].id);
}

fn motorcycle_boxes() -> Vec<BBox> {
    vec![
        BBox::new(187.0, 324.0, 303.0, 422.0),
        BBox::new(183.0, 321.0, 302.0, 426.0),
        BBox::new(180.0, 324.0, 303.0, 429.0),
        BBox::new(179.0, 324.0, 303.0, 433.0),
        BBox::new(168.0, 327.0, 305.0, 438.0),
    ]
}

fn person_boxes() -> Vec<BBox> {
    vec![
        BBox::new(213.0, 280.0, 266.0, 402.0),
        BBox::new(211.0, 278.0, 265.0, 403.0),
        BBox::new(211.0, 278.0, 269.0, 406.0),
        BBox::new(210.0, 276.0, 268.0, 405.0),
        BBox::new(206.0, 277.0, 269.0, 408.0),
    ]
}

#[test]
fn test_update_keeps_track_of_objects() {
    let motorcycle_bboxes = motorcycle_boxes();
    let person_bboxes = person_boxes();

    let mut oc_sort_tracker = BoxTracker::new(5, 0.3, 3, 0.5, 1);

    for i in 0..motorcycle_bboxes.len() {
        let detections = vec![
            BoxDetection { bbox: motorcycle_bboxes[i], class: 3, score: 0.9 },
            BoxDetection { bbox: person_bboxes[i], class: 0, score: 0.8 },
        ];
        let tracks = oc_sort_tracker.update(&detections);
        assert_eq!(tracks.len(), 2);
    }
}

#[test]
fn simultaneous_tracks_keep_their_ids_and_classes() {
    let motorcycle_bboxes = motorcycle_boxes();
    let person_bboxes = person_boxes();
    let mut tracker = BoxTracker::new(5, 0.3, 3, 0.5, 1);
    let mut ids: Vec<u32> = Vec::new();
    for i in 0..motorcycle_bboxes.len() {
        let detections = vec![
            BoxDetection { bbox: motorcycle_bboxes[i], class: 3, score: 0.9 },
            BoxDetection { bbox: person_bboxes[i], class: 0, score: 0.8 },
        ];
        let tracks = tracker.update(&detections);
        assert_eq!(tracks.len(), 2);
        if i == 0 {
            ids = tracks.iter().map(|track| track.id).collect();
            assert_ne!(ids[0], ids[1]);
        }
        let now: Vec<u32> = tracks.iter().map(|track| track.id).collect();
        assert_eq!(now, ids);
        for track in tracks.iter() {
            let to_motorcycle = corner_distance(&track.bbox, &motorcycle_bboxes[i]);
            let to_person = corner_distance(&track.bbox, &person_bboxes[i]);
            if track.class == 3 {
                assert!(to_motorcycle < to_person);
            } else {
                assert_eq!(track.class, 0);
                assert!(to_person < to_motorcycle);
            }
        }
    }
}

#[test]
fn single_detection_starts_a_track() {
    let mut tracker = BoxTracker::new(5, 0.3, 3, 0.5, 1);
    let tracks = tracker.update(&[detection(1.0, 1.0, 2.0, 2.0, 1, 0.9)]);
    assert_eq!(tracks.len(), 1);
    assert_eq!(tracks[0].id, 0);
    assert_eq!(tracks[0].class, 1);
    let tolerance = 1e-6;
    assert!((tracks[0].bbox.x_1 - 1.0).abs() < tolerance);
    assert!((tracks[0].bbox.y_1 - 1.0).abs() < tolerance);
    assert!((tracks[0].bbox.x_2 - 2.0).abs() < tolerance);
    assert!((tracks[0].bbox.y_2 - 2.0).abs() < tolerance);
}

#[test]
fn low_score_detection_keeps_a_track_alive() {
    let mut tracker = BoxTracker::new(5, 0.3, 3, 0.5, 1);
    let first = tracker.update(&[detection(0.0, 0.0, 1.0, 1.0, 1, 0.9)]);
    assert_eq!(first.len(), 1);
    let second = tracker.update(&[detection(0.1, 0.0, 1.1, 1.0, 1, 0.3)]);
    assert_eq!(tracker.core.trackers().len(), 1);
    assert_eq!(tracker.core.trackers()[0].time_since_update(), 0);
    assert_eq!(tracker.core.trackers()[0].hit_streak(), 2);
    assert_eq!(second.len(), 1);
    assert_eq!(second[0].id, first[0].id);
}

#[test]
fn low_score_detection_starts_no_track() {
    let mut tracker = BoxTracker::new(5, 0.3, 3, 0.5, 1);
    let tracks = tracker.update(&[detection(0.0, 0.0, 1.0, 1.0, 1, 0.3)]);
    assert!(tracks.is_empty());
    assert!(tracker.core.trackers().is_empty());
}

#[test]
fn class_mismatch_blocks_association() {
    let mut tracker = BoxTracker::new(5, 0.3, 3, 0.5, 1);
    let first = tracker.update(&[detection(0.0, 0.0, 1.0, 1.0, 1, 0.9)]);
    let second = tracker.update(&[detection(0.0, 0.0, 1.0, 1.0, 2, 0.9)]);
    assert_eq!(tracker.core.trackers().len(), 2);
    assert_eq!(tracker.core.trackers()[0].class(), 1);
    assert_eq!(tracker.core.trackers()[0].time_since_update(), 1);
    assert_eq!(tracker.core.trackers()[1].class(), 2);
    assert_eq!(tracker.core.trackers()[1].time_since_update(), 0);
    assert_eq!(second.len(), 1);
    assert_eq!(second[0].class, 2);
    assert_ne!(second[0].id, first[0].id);
}

#[test]
fn track_dies_of_age() {
    let mut tracker = BoxTracker::new(2, 0.3, 3, 0.5, 1);
    let first = tracker.update(&[detection(0.0, 0.0, 1.0, 1.0, 1, 0.9)]);
    assert_eq!(first.len(), 1);
    assert!(tracker.update(&[]).is_empty());
    assert_eq!(tracker.core.trackers().len(), 1);
    assert!(tracker.update(&[]).is_empty());
    assert_eq!(tracker.core.trackers().len(), 1);
    assert!(tracker.update(&[]).is_empty());
    assert!(tracker.core.trackers().is_empty());
    assert!(tracker.update(&[]).is_empty());
    let later = tracker.update(&[detection(0.0, 0.0, 1.0, 1.0, 1, 0.9)]);
    assert_eq!(later.len(), 1);
    assert_ne!(later[0].id, first[0].id);
}

#[test]
fn reported_class_is_the_class_of_the_latest_detection() {
    let mut tracker = BoxTracker::new(5, 0.3, 3, 0.5, 1);
    let frames = vec![
        vec![detection(0.0, 0.0, 2.0, 2.0, 4, 0.9), detection(10.0, 10.0, 12.0, 12.0, 7, 0.9)],
        vec![detection(10.1, 10.0, 12.1, 12.0, 7, 0.9), detection(0.1, 0.0, 2.1, 2.0, 4, 0.9)],
        vec![detection(0.2, 0.0, 2.2, 2.0, 4, 0.4), detection(10.2, 10.0, 12.2, 12.0, 7, 0.4)],
    ];
    for frame in frames.iter() {
        let tracks = tracker.update(frame);
        assert_eq!(tracks.len(), 2);
        for track in tracks.iter() {
            let nearest = frame
                .iter()
                .min_by(|a, b| {
                    corner_distance(&a.bbox, &track.bbox)
                        .partial_cmp(&corner_distance(&b.bbox, &track.bbox))
                        .unwrap()
                })
                .unwrap();
            assert_eq!(track.class, nearest.class);
        }
    }
}

#[test]
fn dropped_track_leaves_the_others_with_their_boxes() {
    let mut tracker = BoxTracker::new(1, 0.3, 3, 0.5, 1);
    let first = tracker.update(&[
        detection(0.0, 0.0, 2.0, 2.0, 1, 0.9),
        detection(50.0, 50.0, 54.0, 54.0, 2, 0.9),
    ]);
    assert_eq!(first.len(), 2);
    let kept = first[1].id;
    for step in 1..5 {
        let shift = step as f64 * 0.1;
        let tracks =
            tracker.update(&[detection(50.0 + shift, 50.0, 54.0 + shift, 54.0, 2, 0.9)]);
        assert_eq!(tracks.len(), 1);
        assert_eq!(tracks[0].id, kept);
        assert_eq!(tracks[0].class, 2);
        assert!((tracks[0].bbox.x_1 - (50.0 + shift)).abs() < 0.5);
        assert!((tracks[0].bbox.y_1 - 50.0).abs() < 0.5);
    }
    assert_eq!(tracker.core.trackers().len(), 1);
    assert_eq!(tracker.numerics.len(), 1);
}
