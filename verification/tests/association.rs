//! Rounds of association on cost tables written out by hand.

use oc_sort::cost::{clamp_iou_cost, clamp_momentum_cost};
use oc_sort::{
    associate_detections_to_trackers, byte_associate, observation_centric_recovery,
    partition_by_score, resolve_assignment, Detection, IdAllocator, KalmanBoxTracker,
    CLASS_PENALTY, IOU_MULTIPLIER, MOMENTUM_WEIGHT,
};
use pathfinding::matrix::Matrix;

fn detections_of_classes(classes: &[u32]) -> Vec<Detection> {
    classes.iter().map(|&class| Detection { class, score: 9 }).collect()
}

fn trackers_of_classes(classes: &[u32]) -> Vec<KalmanBoxTracker> {
    let mut ids = IdAllocator::new();
    classes.iter().map(|&class| KalmanBoxTracker::new(class, 3, &mut ids)).collect()
}

fn table(rows: usize, columns: usize, cells: Vec<i64>) -> Matrix<i64> {
    Matrix::from_vec(rows, columns, cells).unwrap()
}

fn no_table() -> Matrix<i64> {
    Matrix::new(0, 0, 0)
}

#[test]
fn constants_have_their_values() {
    assert_eq!(IOU_MULTIPLIER, 10_000);
    assert_eq!(CLASS_PENALTY, 1_000_000);
    assert_eq!(MOMENTUM_WEIGHT, 2_000);
}

#[test]
fn overlap_costs_are_clamped() {
    assert_eq!(clamp_iou_cost(0), 0);
    assert_eq!(clamp_iou_cost(-1), -1);
    assert_eq!(clamp_iou_cost(-10_000), -10_000);
    assert_eq!(clamp_iou_cost(-10_001), -10_000);
    assert_eq!(clamp_iou_cost(i64::MIN), -10_000);
    assert_eq!(clamp_iou_cost(1), 0);
    assert_eq!(clamp_iou_cost(i64::MAX), 0);
}

#[test]
fn momentum_costs_are_clamped() {
    assert_eq!(clamp_momentum_cost(0), 0);
    assert_eq!(clamp_momentum_cost(-1_000), -1_000);
    assert_eq!(clamp_momentum_cost(-2_000), -2_000);
    assert_eq!(clamp_momentum_cost(-2_001), -2_000);
    assert_eq!(clamp_momentum_cost(i64::MIN), -2_000);
    assert_eq!(clamp_momentum_cost(5), 0);
}

#[test]
fn detections_are_split_by_score() {
    let detections = vec![
        Detection { class: 0, score: 50 },
        Detection { class: 0, score: 49 },
        Detection { class: 0, score: 51 },
        Detection { class: 0, score: 0 },
        Detection { class: 0, score: 50 },
    ];
    let (high, low) = partition_by_score(&detections, 50);
    assert_eq!(high, vec![0, 2, 4]);
    assert_eq!(low, vec![1, 3]);
    let (high, low) = partition_by_score(&detections, 0);
    assert_eq!(high, vec![0, 1, 2, 3, 4]);
    assert!(low.is_empty());
    let (high, low) = partition_by_score(&[], 50);
    assert!(high.is_empty());
    assert!(low.is_empty());
}

#[test]
fn solver_picks_the_cheapest_pairing() {
    let detections = detections_of_classes(&[0, 0]);
    let trackers = trackers_of_classes(&[0, 0]);
    let iou = table(2, 2, vec![-9000, -8000, -8500, 0]);
    let momentum = table(2, 2, vec![0, 0, 0, 0]);
    let (matched, unmatched_detections, unmatched_trackers) = associate_detections_to_trackers(
        &detections,
        &[0, 1],
        &trackers,
        &[0, 1],
        3000,
        &iou,
        &momentum,
    );
    assert_eq!(matched, vec![(0, 1), (1, 0)]);
    assert!(unmatched_detections.is_empty());
    assert!(unmatched_trackers.is_empty());
}

#[test]
fn more_detections_than_trackers() {
    let detections = detections_of_classes(&[0; 7]);
    let trackers = trackers_of_classes(&[0; 3]);
    let mut cells = vec![0; 21];
    cells[2 * 3 + 2] = -9000;
    cells[6 * 3 + 0] = -7000;
    let iou = table(7, 3, cells);
    let (matched, unmatched_detections, unmatched_trackers) =
        byte_associate(&detections, &[2, 4, 6], &trackers, &[2, 0], 3000, &iou);
    assert_eq!(matched, vec![(2, 2), (6, 0)]);
    assert_eq!(unmatched_detections, vec![4]);
    assert!(unmatched_trackers.is_empty());
}

#[test]
fn trackers_without_a_detection_are_named_by_their_index() {
    let detections = detections_of_classes(&[0, 0]);
    let trackers = trackers_of_classes(&[0, 0, 0]);
    let iou = table(2, 3, vec![0, 0, 0, -8000, 0, 0]);
    let (matched, unmatched_detections, unmatched_trackers) =
        observation_centric_recovery(&detections, &[1], &trackers, &[2, 0, 1], 3000, &iou);
    assert_eq!(matched, vec![(1, 0)]);
    assert!(unmatched_detections.is_empty());
    assert_eq!(unmatched_trackers, vec![2, 1]);
}

#[test]
fn pair_below_the_threshold_is_refused() {
    let detections = detections_of_classes(&[0]);
    let trackers = trackers_of_classes(&[0]);
    let iou = table(1, 1, vec![-2999]);
    let (matched, unmatched_detections, unmatched_trackers) =
        byte_associate(&detections, &[0], &trackers, &[0], 3000, &iou);
    assert!(matched.is_empty());
    assert_eq!(unmatched_detections, vec![0]);
    assert_eq!(unmatched_trackers, vec![0]);
}

#[test]
fn pair_at_the_threshold_is_accepted() {
    let detections = detections_of_classes(&[0]);
    let trackers = trackers_of_classes(&[0]);
    let iou = table(1, 1, vec![-3000]);
    let (matched, unmatched_detections, unmatched_trackers) =
        byte_associate(&detections, &[0], &trackers, &[0], 3000, &iou);
    assert_eq!(matched, vec![(0, 0)]);
    assert!(unmatched_detections.is_empty());
    assert!(unmatched_trackers.is_empty());
}

#[test]
fn pair_of_different_classes_is_refused() {
    let detections = detections_of_classes(&[1]);
    let trackers = trackers_of_classes(&[2]);
    let iou = table(1, 1, vec![-10_000]);
    let (matched, unmatched_detections, unmatched_trackers) =
        observation_centric_recovery(&detections, &[0], &trackers, &[0], 3000, &iou);
    assert!(matched.is_empty());
    assert_eq!(unmatched_detections, vec![0]);
    assert_eq!(unmatched_trackers, vec![0]);
}

#[test]
fn class_outweighs_overlap() {
    let detections = detections_of_classes(&[1, 2]);
    let trackers = trackers_of_classes(&[2, 1]);
    let iou = table(2, 2, vec![-10_000, -4000, -4000, -10_000]);
    let (matched, unmatched_detections, unmatched_trackers) =
        byte_associate(&detections, &[0, 1], &trackers, &[0, 1], 3000, &iou);
    assert_eq!(matched, vec![(0, 1), (1, 0)]);
    assert!(unmatched_detections.is_empty());
    assert!(unmatched_trackers.is_empty());
}

#[test]
fn momentum_decides_between_equal_overlaps() {
    let detections = detections_of_classes(&[0]);
    let trackers = trackers_of_classes(&[0, 0]);
    let iou = table(1, 2, vec![-5000, -5000]);
    let momentum = table(1, 2, vec![0, -2000]);
    let (matched, unmatched_detections, unmatched_trackers) = associate_detections_to_trackers(
        &detections,
        &[0],
        &trackers,
        &[0, 1],
        3000,
        &iou,
        &momentum,
    );
    assert_eq!(matched, vec![(0, 1)]);
    assert!(unmatched_detections.is_empty());
    assert_eq!(unmatched_trackers, vec![0]);

    let momentum = table(1, 2, vec![-2000, 0]);
    let (matched, _, unmatched_trackers) = associate_detections_to_trackers(
        &detections,
        &[0],
        &trackers,
        &[0, 1],
        3000,
        &iou,
        &momentum,
    );
    assert_eq!(matched, vec![(0, 0)]);
    assert_eq!(unmatched_trackers, vec![1]);
}

#[test]
fn momentum_does_not_help_over_the_threshold() {
    let detections = detections_of_classes(&[0]);
    let trackers = trackers_of_classes(&[0]);
    let iou = table(1, 1, vec![-2000]);
    let momentum = table(1, 1, vec![-2000]);
    let (matched, unmatched_detections, unmatched_trackers) = associate_detections_to_trackers(
        &detections,
        &[0],
        &trackers,
        &[0],
        3000,
        &iou,
        &momentum,
    );
    assert!(matched.is_empty());
    assert_eq!(unmatched_detections, vec![0]);
    assert_eq!(unmatched_trackers, vec![0]);
}

#[test]
fn costs_out_of_range_are_clamped_before_the_solver() {
    let detections = detections_of_classes(&[0]);
    let trackers = trackers_of_classes(&[0, 0]);
    let iou = table(1, 2, vec![-50_000, -10_000]);
    let momentum = table(1, 2, vec![0, -1000]);
    let (matched, _, unmatched_trackers) = associate_detections_to_trackers(
        &detections,
        &[0],
        &trackers,
        &[0, 1],
        3000,
        &iou,
        &momentum,
    );
    assert_eq!(matched, vec![(0, 1)]);
    assert_eq!(unmatched_trackers, vec![0]);
}

#[test]
fn positive_overlap_cost_counts_as_no_overlap() {
    let detections = detections_of_classes(&[0]);
    let trackers = trackers_of_classes(&[0]);
    let iou = table(1, 1, vec![500]);
    let (matched, _, _) = byte_associate(&detections, &[0], &trackers, &[0], 0, &iou);
    assert_eq!(matched, vec![(0, 0)]);
    let (matched, _, _) = byte_associate(&detections, &[0], &trackers, &[0], 1, &iou);
    assert!(matched.is_empty());
}

#[test]
fn nobody_on_one_side_leaves_everybody_over() {
    let detections = detections_of_classes(&[0, 0, 0]);
    let trackers = trackers_of_classes(&[0, 0]);
    let (matched, unmatched_detections, unmatched_trackers) = associate_detections_to_trackers(
        &detections,
        &[],
        &trackers,
        &[1, 0],
        3000,
        &no_table(),
        &no_table(),
    );
    assert!(matched.is_empty());
    assert!(unmatched_detections.is_empty());
    assert_eq!(unmatched_trackers, vec![1, 0]);

    let (matched, unmatched_detections, unmatched_trackers) =
        byte_associate(&detections, &[2, 0], &trackers, &[], 3000, &no_table());
    assert!(matched.is_empty());
    assert_eq!(unmatched_detections, vec![2, 0]);
    assert!(unmatched_trackers.is_empty());

    let (matched, unmatched_detections, unmatched_trackers) =
        observation_centric_recovery(&detections, &[], &trackers, &[], 3000, &no_table());
    assert!(matched.is_empty());
    assert!(unmatched_detections.is_empty());
    assert!(unmatched_trackers.is_empty());
}

#[test]
fn every_index_comes_out_once() {
    let detections = detections_of_classes(&[0, 1, 0, 1, 0]);
    let trackers = trackers_of_classes(&[1, 0, 0]);
    let iou = table(
        5,
        3,
        vec![-100, -9000, -200, -8000, 0, 0, 0, -2500, -7000, -6000, 0, 0, -50, -60, -70],
    );
    let momentum = table(5, 3, vec![0; 15]);
    let (matched, unmatched_detections, unmatched_trackers) = associate_detections_to_trackers(
        &detections,
        &[0, 1, 2, 3, 4],
        &trackers,
        &[0, 1, 2],
        3000,
        &iou,
        &momentum,
    );
    let mut seen_detections: Vec<usize> = matched.iter().map(|pair| pair.0).collect();
    seen_detections.extend(unmatched_detections.iter());
    seen_detections.sort();
    assert_eq!(seen_detections, vec![0, 1, 2, 3, 4]);
    let mut seen_trackers: Vec<usize> = matched.iter().map(|pair| pair.1).collect();
    seen_trackers.extend(unmatched_trackers.iter());
    seen_trackers.sort();
    assert_eq!(seen_trackers, vec![0, 1, 2]);
    for &(detection, tracker) in matched.iter() {
        assert_eq!(detections[detection].class, trackers[tracker].class());
        assert!(-iou[(detection, tracker)] >= 3000);
    }
    assert_eq!(matched, vec![(1, 0), (0, 1), (2, 2)]);
    assert_eq!(unmatched_detections, vec![3, 4]);
    assert!(unmatched_trackers.is_empty());
}

#[test]
fn assignment_is_sorted_into_matches_and_leftovers() {
    let detections = detections_of_classes(&[0; 6]);
    let trackers = trackers_of_classes(&[0; 10]);
    let iou = table(2, 3, vec![0, 0, -5000, -1000, 0, 0]);
    let (matched, unmatched_detections, unmatched_trackers) =
        resolve_assignment(&[2, 0], false, &detections, &[3, 5], &trackers, &[7, 8, 9], &iou, 3000);
    assert_eq!(matched, vec![(3, 9)]);
    assert_eq!(unmatched_detections, vec![5]);
    assert_eq!(unmatched_trackers, vec![8, 7]);
}

#[test]
fn transposed_assignment_is_sorted_into_matches_and_leftovers() {
    let detections = detections_of_classes(&[0; 6]);
    let trackers = trackers_of_classes(&[0; 10]);
    let iou = table(3, 2, vec![0, -1000, 0, 0, -5000, 0]);
    let (matched, unmatched_detections, unmatched_trackers) =
        resolve_assignment(&[2, 0], true, &detections, &[1, 3, 5], &trackers, &[7, 9], &iou, 3000);
    assert_eq!(matched, vec![(5, 7)]);
    assert_eq!(unmatched_detections, vec![3, 1]);
    assert_eq!(unmatched_trackers, vec![9]);
}

/// A fixed sequence of numbers that looks shuffled.
fn shuffled(seed: &mut u64) -> u64 {
    *seed = seed.wrapping_mul(6364136223846793005).wrapping_add(1442695040888963407);
    *seed >> 33
}

#[test]
fn large_round_with_all_kinds_of_costs() {
    let mut seed = 7;
    for &(rows, columns) in [(60usize, 50usize), (50, 60), (40, 40), (1, 70), (70, 1)].iter() {
        let detection_classes: Vec<u32> =
            (0..rows).map(|_| (shuffled(&mut seed) % 2) as u32).collect();
        let tracker_classes: Vec<u32> =
            (0..columns).map(|_| (shuffled(&mut seed) % 2) as u32).collect();
        let detections = detections_of_classes(&detection_classes);
        let trackers = trackers_of_classes(&tracker_classes);
        let iou = Matrix::from_fn(rows, columns, |_| match shuffled(&mut seed) % 4 {
            0 => 0,
            1 => -10_000,
            _ => -((shuffled(&mut seed) % 10_001) as i64),
        });
        let momentum = Matrix::from_fn(rows, columns, |_| match shuffled(&mut seed) % 3 {
            0 => 0,
            1 => -2_000,
            _ => -((shuffled(&mut seed) % 2_001) as i64),
        });
        let detection_indices: Vec<usize> = (0..rows).collect();
        let tracker_indices: Vec<usize> = (0..columns).rev().collect();
        let (matched, unmatched_detections, unmatched_trackers) =
            associate_detections_to_trackers(
                &detections,
                &detection_indices,
                &trackers,
                &tracker_indices,
                3000,
                &iou,
                &momentum,
            );
        let mut seen: Vec<usize> = matched.iter().map(|pair| pair.0).collect();
        seen.extend(unmatched_detections.iter());
        seen.sort();
        assert_eq!(seen, detection_indices);
        let mut seen: Vec<usize> = matched.iter().map(|pair| pair.1).collect();
        seen.extend(unmatched_trackers.iter());
        seen.sort();
        assert_eq!(seen, (0..columns).collect::<Vec<usize>>());
        for &(detection, tracker) in matched.iter() {
            assert_eq!(detections[detection].class, trackers[tracker].class());
            assert!(-iou[(detection, tracker)] >= 3000);
        }
        assert!(matched.len() <= rows.min(columns));
    }
}

#[test]
fn solver_beats_every_other_pairing_of_three() {
    let detections = detections_of_classes(&[0, 0, 0]);
    let trackers = trackers_of_classes(&[0, 0, 0]);
    let cells = vec![-4000, -9000, -5000, -8000, -9500, -3500, -6900, -6000, -4500];
    let iou = table(3, 3, cells.clone());
    let (matched, _, _) = byte_associate(&detections, &[0, 1, 2], &trackers, &[0, 1, 2], 0, &iou);
    assert_eq!(matched.len(), 3);
    let total: i64 = matched.iter().map(|&(d, t)| cells[d * 3 + t]).sum();
    let orders = [[0, 1, 2], [0, 2, 1], [1, 0, 2], [1, 2, 0], [2, 0, 1], [2, 1, 0]];
    for order in orders.iter() {
        let other: i64 = (0..3).map(|d| cells[d * 3 + order[d]]).sum();
        assert!(total <= other);
    }
    assert_eq!(total, -21_500);
    assert_eq!(matched, vec![(0, 1), (1, 0), (2, 2)]);
}
