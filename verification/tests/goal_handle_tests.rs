use action_server::ActionServerError;
use action_server::GoalStatus;
use action_server::GoalUuid;
use action_server::ServerGoalHandle;

#[test]
fn new_goal_starts_accepted() {
    let h = ServerGoalHandle::new(GoalUuid(1), vec![5], 10);
    assert_eq!(h.uuid, GoalUuid(1));
    assert_eq!(h.goal, vec![5]);
    assert_eq!(h.status, GoalStatus::Accepted);
    assert_eq!(h.stamp, 10);
    assert!(h.is_active());
    assert!(!h.is_executing());
    assert!(!h.is_canceling());
}

#[test]
fn execute_moves_accepted_to_executing() {
    let mut h = ServerGoalHandle::new(GoalUuid(1), vec![], 0);
    assert_eq!(h.execute(), Ok(()));
    assert_eq!(h.status, GoalStatus::Executing);
    assert!(h.is_executing());
    assert_eq!(h.execute(), Err(ActionServerError::InvalidTransition));
}

#[test]
fn cancel_only_before_cancel_requested() {
    let mut h = ServerGoalHandle::new(GoalUuid(1), vec![], 0);
    assert_eq!(h.cancel(), Ok(()));
    assert_eq!(h.status, GoalStatus::Canceling);
    assert!(h.is_canceling());
    assert!(h.is_active());
    assert_eq!(h.cancel(), Err(ActionServerError::InvalidTransition));
}

#[test]
fn canceling_goal_may_still_succeed_or_abort() {
    let mut h = ServerGoalHandle::new(GoalUuid(1), vec![], 0);
    h.execute().unwrap();
    h.cancel().unwrap();
    assert_eq!(h.succeed(), Ok(()));
    assert_eq!(h.status, GoalStatus::Succeeded);

    let mut h = ServerGoalHandle::new(GoalUuid(2), vec![], 0);
    h.cancel().unwrap();
    assert_eq!(h.abort(), Ok(()));
    assert_eq!(h.status, GoalStatus::Aborted);
}

#[test]
fn canceled_requires_a_cancel_request() {
    let mut h = ServerGoalHandle::new(GoalUuid(1), vec![], 0);
    assert_eq!(h.canceled(), Err(ActionServerError::InvalidTransition));
    h.execute().unwrap();
    assert_eq!(h.canceled(), Err(ActionServerError::InvalidTransition));
    h.cancel().unwrap();
    assert_eq!(h.canceled(), Ok(()));
    assert_eq!(h.status, GoalStatus::Canceled);
}

#[test]
fn terminal_states_admit_no_transition() {
    for terminal in [GoalStatus::Succeeded, GoalStatus::Canceled, GoalStatus::Aborted] {
        let mut h = ServerGoalHandle::new(GoalUuid(1), vec![], 0);
        h.status = terminal;
        assert_eq!(h.execute(), Err(ActionServerError::InvalidTransition));
        assert_eq!(h.cancel(), Err(ActionServerError::InvalidTransition));
        assert_eq!(h.succeed(), Err(ActionServerError::InvalidTransition));
        assert_eq!(h.abort(), Err(ActionServerError::InvalidTransition));
        assert_eq!(h.canceled(), Err(ActionServerError::InvalidTransition));
        assert_eq!(h.status, terminal);
        assert!(!h.is_active());
    }
}
