use tsp_core::projections::projection::{
    first, last, ConstantProjection, FirstProjection, LastProjection, NoProjectionState,
    Projection, QueueProjectionState,
};

fn run_projection<P: Projection>(p: &P, events: &[P::Event]) -> <P as Projection>::State {
    let mut state = default_state(p);
    p.update(0, events, &mut state);
    state
}

fn default_state<P: Projection>(p: &P) -> <P as Projection>::State {
    p.initial_state()
}

#[test]
fn const_projection() {
    let expected = 3;
    let constant_projection = ConstantProjection::new(expected);
    let mut updated_state = run_projection(&constant_projection, &[(0, 0), (1, 1)]);

    let extracted_value = constant_projection.extract(&mut updated_state, 0, 1);
    assert_eq!(extracted_value, expected);
    assert_eq!(updated_state, NoProjectionState);
}

struct TE(usize, usize);

#[test]
fn first_projection() {
    let expected = 13;
    let first_projection = FirstProjection::new(|e: &TE| e.1);
    let mut updated_state = run_projection(&first_projection, &[TE(0, 20), TE(1, 13), TE(5, 34)]);

    let extracted_value = first_projection.extract(&mut updated_state, 1, 2);
    assert_eq!(extracted_value, expected);
    assert_eq!(updated_state.first_idx(), 3);
    assert!(updated_state.is_empty());
}

#[test]
fn last_projection() {
    let expected = 34;
    let last_projection = LastProjection::new(|e: &TE| e.1);
    let mut updated_state =
        run_projection(&last_projection, &[TE(0, 20), TE(1, 13), TE(2, 34), TE(3, 567)]);

    let extracted_value = last_projection.extract(&mut updated_state, 1, 2);
    assert_eq!(extracted_value, expected);
    assert_eq!(updated_state.first_idx(), 3);
    assert_eq!(updated_state.len(), 1);
}

#[test]
fn first_and_last_on_one_event() {
    let projection = FirstProjection::new(|e: &TE| e.1);
    let mut state = run_projection(&projection, &[TE(0, 20), TE(1, 13), TE(2, 34)]);
    assert_eq!(first(&mut state, 0, 0), 20);
    assert_eq!(state.first_idx(), 1);
    assert_eq!(last(&mut state, 1, 1), 13);
    assert_eq!(state.first_idx(), 2);
    assert_eq!(state.len(), 1);
}

#[test]
fn projection_over_two_batches() {
    let projection = LastProjection::new(|e: &TE| e.1);
    let mut state = projection.initial_state();
    projection.update(0, &[TE(0, 1), TE(1, 2)], &mut state);
    assert_eq!(projection.extract(&mut state, 0, 0), 1);
    projection.update(2, &[TE(2, 3), TE(3, 4)], &mut state);
    assert_eq!(state.len(), 3);
    assert_eq!(projection.extract(&mut state, 1, 3), 4);
    assert!(state.is_empty());
    assert_eq!(state.first_idx(), 4);
}

#[test]
fn default_queue_state_is_empty() {
    let state: QueueProjectionState<u64> = QueueProjectionState::default();
    assert_eq!(state.first_idx(), 0);
    assert_eq!(state.len(), 0);
}
