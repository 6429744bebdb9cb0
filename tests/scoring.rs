use alc::key::Finger::{Middle, PlaceholderFinger};
use alc::key::Hand::{Right, PlaceholderHand};
use alc::key::PhalanxKey;
use alc::layer::Layer;
use alc::position::LayoutPositionSequence;
use alc::scoring::{sequence_streaks, streak_runs};

fn phalanx() -> Layer<1, 4, PhalanxKey> {
    Layer::<1, 4, PhalanxKey>::try_from_str("l:r l:m r:m r:r").unwrap()
}

#[test]
fn long_alternation_is_one_run() {
    let seq = LayoutPositionSequence::from_tuples(vec![(0, 0, 0), (0, 0, 2), (0, 0, 1), (0, 0, 3)]);
    let (runs, keys) = sequence_streaks(&phalanx(), &seq);
    assert_eq!(keys[1], PhalanxKey::new(Right, Middle));
    assert_eq!(runs.alt_inds, vec![0, 4]);
    assert!(runs.roll_inds.is_empty());
    assert!(runs.same_finger.is_empty());
}

#[test]
fn two_alternations_around_a_break() {
    let seq = LayoutPositionSequence::from_tuples(vec![(0, 0, 0), (0, 0, 2), (0, 0, 1), (0, 0, 0), (0, 0, 3), (0, 0, 0), (0, 0, 1)]);
    let (runs, _) = sequence_streaks(&phalanx(), &seq);
    assert_eq!(runs.alt_inds, vec![0, 3, 3, 6]);
}

#[test]
fn same_finger_is_reported() {
    let seq = LayoutPositionSequence::from_tuples(vec![(0, 0, 0), (0, 0, 0)]);
    let (runs, _) = sequence_streaks(&phalanx(), &seq);
    assert_eq!(runs.same_finger, vec![1]);
}

#[test]
fn roll_then_alternation() {
    let layer = Layer::<3, 5, PhalanxKey>::try_from_str("
        l:p l:r l:m l:i r:i
        l:p l:r l:m l:i r:i
        l:p l:r l:m l:i r:i
    ").unwrap();
    let seq = LayoutPositionSequence::from_tuples(vec![(0, 2, 0), (0, 1, 1), (0, 0, 2), (0, 0, 4), (0, 1, 0), (0, 1, 4)]);
    let (runs, _) = sequence_streaks(&layer, &seq);
    assert_eq!(runs.roll_inds, vec![0, 3]);
    assert_eq!(runs.alt_inds, vec![2, 6]);
    let seq = LayoutPositionSequence::from_tuples(vec![(0, 2, 0), (0, 0, 1), (0, 0, 2)]);
    let (runs, _) = sequence_streaks(&layer, &seq);
    assert!(runs.roll_inds.is_empty());
}

#[test]
fn placeholder_start_counts_as_same_finger() {
    let keys = vec![PhalanxKey::new(PlaceholderHand, PlaceholderFinger)];
    let runs = streak_runs(&keys, &vec![0]);
    assert_eq!(runs.same_finger, vec![0]);
}
