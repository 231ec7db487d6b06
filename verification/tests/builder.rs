use bagr::bagit::{BuildState, Outcome, Step};

#[test]
fn a_run_begins_at_start() {
    assert_eq!(BuildState::new(), BuildState::Start);
    assert_eq!(BuildState::new().pending(), Some(Step::Start));
    assert!(!BuildState::new().is_terminal());
}

#[test]
fn completed_steps_follow_in_order() {
    let order = [
        (BuildState::Start, Step::Start),
        (BuildState::WritePayload, Step::WritePayload),
        (BuildState::ComputeManifests, Step::ComputeManifests),
        (BuildState::WriteBagDeclaration, Step::WriteBagDeclaration),
        (BuildState::ComputeAndWriteBagInfo, Step::ComputeAndWriteBagInfo),
        (BuildState::WriteTagManifests, Step::WriteTagManifests),
    ];
    let mut state = BuildState::new();
    for (expected, step) in order {
        assert_eq!(state, expected);
        assert_eq!(state.pending(), Some(step));
        assert!(!state.is_terminal());
        state = state.advance(Outcome::Completed);
    }
    assert_eq!(state, BuildState::Done);
    assert_eq!(state.pending(), None);
    assert!(state.is_terminal());
}

#[test]
fn a_failure_ends_the_run_at_the_step_that_failed() {
    let steps = [
        Step::Start,
        Step::WritePayload,
        Step::ComputeManifests,
        Step::WriteBagDeclaration,
        Step::ComputeAndWriteBagInfo,
        Step::WriteTagManifests,
    ];
    for (completed, step) in steps.iter().enumerate() {
        let mut state = BuildState::new();
        for _ in 0..completed {
            state = state.advance(Outcome::Completed);
        }
        let failed = state.advance(Outcome::Failed);
        assert_eq!(failed, BuildState::Failed { at: *step });
        assert_eq!(failed.pending(), None);
        assert!(failed.is_terminal());
    }
}

#[test]
fn a_run_that_has_ended_stays_where_it_is() {
    let failed = BuildState::ComputeManifests.advance(Outcome::Failed);
    assert_eq!(failed.advance(Outcome::Completed), failed);
    assert_eq!(failed.advance(Outcome::Failed), failed);
    assert_eq!(BuildState::Done.advance(Outcome::Completed), BuildState::Done);
    assert_eq!(BuildState::Done.advance(Outcome::Failed), BuildState::Done);
}
