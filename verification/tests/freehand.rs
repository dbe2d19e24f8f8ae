use synthia::freehand::Simplifier;

#[test]
fn short_strokes_are_kept_whole() {
    let mut state = Simplifier::new(2);
    assert_eq!(state.next_range(), None);
    assert_eq!(state.kept_indices(), vec![0, 1]);
    let mut empty = Simplifier::new(0);
    assert_eq!(empty.next_range(), None);
    assert!(empty.kept_indices().is_empty());
}

#[test]
fn examines_the_whole_stroke_then_each_side_of_a_kept_point() {
    let mut state = Simplifier::new(5);
    assert_eq!(state.next_range(), Some((0, 4)));
    state.split((0, 4), Some(2));
    assert_eq!(state.next_range(), Some((2, 4)));
    state.split((2, 4), None);
    assert_eq!(state.next_range(), Some((0, 2)));
    state.split((0, 2), Some(1));
    assert_eq!(state.next_range(), None);
    assert_eq!(state.kept_indices(), vec![0, 1, 2, 4]);
}

#[test]
fn a_straight_stroke_keeps_only_its_ends() {
    let mut state = Simplifier::new(10);
    while let Some(range) = state.next_range() {
        state.split(range, None);
    }
    assert_eq!(state.kept_indices(), vec![0, 9]);
}

#[test]
fn short_stretches_are_skipped_and_longer_ones_kept_for_later() {
    let mut state = Simplifier::new(6);
    assert_eq!(state.next_range(), Some((0, 5)));
    state.split((0, 5), Some(4));
    // (4, 5) has no point inside it and is dropped; (0, 4) comes next.
    assert_eq!(state.next_range(), Some((0, 4)));
    state.split((0, 4), None);
    assert_eq!(state.next_range(), None);
    assert_eq!(state.kept_indices(), vec![0, 4, 5]);
}
