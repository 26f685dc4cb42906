use action_server::ActionServer;
use action_server::ActionServerBase;
use action_server::ActionServerError;
use action_server::CancelRequestMsg;
use action_server::CancelResponse;
use action_server::CancelReturnCode;
use action_server::GoalResponse;
use action_server::GoalStatus;
use action_server::GoalUuid;
use action_server::MiddlewareSendResult;
use action_server::ReadyEvent;
use action_server::ReadyMode;
use action_server::RequestId;
use action_server::ServerAction;
use action_server::absorb_send_result;

fn rid(n: i64) -> RequestId {
    RequestId { writer_guid: 7, sequence_number: n }
}

fn server() -> ActionServer {
    ActionServer::new("fibonacci", 1_000).unwrap()
}

fn status_of(s: &ActionServer, u: GoalUuid) -> Option<GoalStatus> {
    s.handle().lock().get(u).map(|h| h.status)
}

#[test]
fn accept_and_execute_happy_path() {
    let mut s = server();
    let a = GoalUuid(0xA);
    let actions = s.execute_goal_request(rid(1), a, vec![5], GoalResponse::AcceptAndExecute, 10);
    assert_eq!(actions.len(), 3);
    match &actions[0] {
        ServerAction::SendGoalResponse { request, accepted } => {
            assert_eq!(*request, rid(1));
            assert!(*accepted);
        }
        _ => panic!("expected a goal response first"),
    }
    match &actions[1] {
        ServerAction::PublishStatus { entries } => {
            assert_eq!(entries.len(), 1);
            assert_eq!(entries[0].uuid, a);
            assert_eq!(entries[0].status, GoalStatus::Executing);
            assert_eq!(entries[0].stamp, 10);
        }
        _ => panic!("expected a status snapshot second"),
    }
    match &actions[2] {
        ServerAction::InvokeAcceptedCallback { uuid } => assert_eq!(*uuid, a),
        _ => panic!("expected the accepted callback last"),
    }
    let callbacks = actions
        .iter()
        .filter(|x| matches!(x, ServerAction::InvokeAcceptedCallback { .. }))
        .count();
    assert_eq!(callbacks, 1);
    assert_eq!(s.handle().lock().num_goals(), 1);
    assert_eq!(status_of(&s, a), Some(GoalStatus::Executing));
}

#[test]
fn accept_and_defer_starts_accepted() {
    let mut s = server();
    let a = GoalUuid(0xA1);
    s.execute_goal_request(rid(1), a, vec![], GoalResponse::AcceptAndDefer, 3);
    assert_eq!(status_of(&s, a), Some(GoalStatus::Accepted));
    let actions = s.execute_goal(a).unwrap();
    assert_eq!(status_of(&s, a), Some(GoalStatus::Executing));
    assert_eq!(actions.len(), 1);
    assert!(matches!(actions[0], ServerAction::PublishStatus { .. }));
}

#[test]
fn reject_leaves_no_trace() {
    let mut s = server();
    let b = GoalUuid(0xB);
    let actions = s.execute_goal_request(rid(2), b, vec![1], GoalResponse::Reject, 10);
    assert_eq!(actions.len(), 1);
    match &actions[0] {
        ServerAction::SendGoalResponse { request, accepted } => {
            assert_eq!(*request, rid(2));
            assert!(!*accepted);
        }
        _ => panic!("expected a goal response"),
    }
    assert!(!actions.iter().any(|x| matches!(x, ServerAction::PublishStatus { .. })));
    assert_eq!(s.handle().lock().num_goals(), 0);
    assert!(status_of(&s, b).is_none());
}

#[test]
fn late_result_request() {
    let mut s = server();
    let c = GoalUuid(0xC);
    s.execute_goal_request(rid(1), c, vec![], GoalResponse::AcceptAndExecute, 10);
    let pending = s.execute_result_request(rid(9), c);
    assert!(pending.is_empty());
    let actions = s.succeed_goal(c, vec![42, 43]).unwrap();
    assert_eq!(actions.len(), 2);
    match &actions[0] {
        ServerAction::PublishStatus { entries } => {
            assert_eq!(entries[0].status, GoalStatus::Succeeded);
        }
        _ => panic!("status must be published before the result response"),
    }
    match &actions[1] {
        ServerAction::SendResultResponse { request, response } => {
            assert_eq!(*request, rid(9));
            assert_eq!(response.status, GoalStatus::Succeeded.code());
            assert_eq!(response.result, vec![42, 43]);
        }
        _ => panic!("expected the pending result response"),
    }
    // the goal stays registered until expiration
    assert_eq!(s.handle().lock().num_goals(), 1);
}

#[test]
fn result_request_after_termination_is_answered_at_once() {
    let mut s = server();
    let c = GoalUuid(0xC2);
    s.execute_goal_request(rid(1), c, vec![], GoalResponse::AcceptAndExecute, 10);
    s.succeed_goal(c, vec![9]).unwrap();
    let actions = s.execute_result_request(rid(5), c);
    assert_eq!(actions.len(), 1);
    match &actions[0] {
        ServerAction::SendResultResponse { request, response } => {
            assert_eq!(*request, rid(5));
            assert_eq!(response.status, 4);
            assert_eq!(response.result, vec![9]);
        }
        _ => panic!("expected an immediate result response"),
    }
}

#[test]
fn unknown_get_result() {
    let mut s = server();
    let d = GoalUuid(0xD);
    let actions = s.execute_result_request(rid(3), d);
    assert_eq!(actions.len(), 1);
    match &actions[0] {
        ServerAction::SendResultResponse { request, response } => {
            assert_eq!(*request, rid(3));
            assert_eq!(response.status, 0);
            assert!(response.result.is_empty());
        }
        _ => panic!("expected an unknown-goal response"),
    }
    assert_eq!(s.handle().lock().num_goals(), 0);
}

#[test]
fn partial_cancel() {
    let mut s = server();
    let e = GoalUuid(0xE);
    let f = GoalUuid(0xF);
    let g = GoalUuid(0x10);
    for (i, u) in [e, f, g].into_iter().enumerate() {
        s.execute_goal_request(rid(i as i64), u, vec![], GoalResponse::AcceptAndExecute, 10);
    }
    let filter = CancelRequestMsg { goal_id: GoalUuid(0), stamp: 0 };
    let candidates = s.cancel_candidates(filter);
    assert_eq!(candidates, vec![e, f, g]);
    let decisions = vec![CancelResponse::Accept, CancelResponse::Reject, CancelResponse::Accept];
    let actions = s.execute_cancel_request(rid(8), filter, &decisions);
    assert_eq!(actions.len(), 2);
    assert!(matches!(actions[0], ServerAction::PublishStatus { .. }));
    match &actions[1] {
        ServerAction::SendCancelResponse { request, response } => {
            assert_eq!(*request, rid(8));
            assert_eq!(response.return_code, CancelReturnCode::Accepted);
            assert_eq!(response.return_code.code(), 0);
            assert_eq!(response.goals_canceling.len(), 2);
            assert_eq!(response.goals_canceling[0].uuid, e);
            assert_eq!(response.goals_canceling[1].uuid, g);
        }
        _ => panic!("expected the cancel response"),
    }
    assert_eq!(status_of(&s, e), Some(GoalStatus::Canceling));
    assert_eq!(status_of(&s, f), Some(GoalStatus::Executing));
    assert_eq!(status_of(&s, g), Some(GoalStatus::Canceling));
    let publications = actions
        .iter()
        .filter(|x| matches!(x, ServerAction::PublishStatus { .. }))
        .count();
    assert_eq!(publications, 1);
}

#[test]
fn all_rejected_cancel() {
    let mut s = server();
    let h = GoalUuid(0x11);
    s.execute_goal_request(rid(1), h, vec![], GoalResponse::AcceptAndExecute, 10);
    let filter = CancelRequestMsg { goal_id: GoalUuid(0), stamp: 0 };
    let decisions = vec![CancelResponse::Reject];
    let actions = s.execute_cancel_request(rid(2), filter, &decisions);
    assert_eq!(actions.len(), 1);
    match &actions[0] {
        ServerAction::SendCancelResponse { response, .. } => {
            assert_eq!(response.return_code, CancelReturnCode::Rejected);
            assert_eq!(response.return_code.code(), 1);
            assert!(response.goals_canceling.is_empty());
        }
        _ => panic!("expected only the cancel response"),
    }
    assert_eq!(status_of(&s, h), Some(GoalStatus::Executing));
}

#[test]
fn cancel_unknown_specific_goal() {
    let mut s = server();
    let filter = CancelRequestMsg { goal_id: GoalUuid(0x77), stamp: 0 };
    assert!(s.cancel_candidates(filter).is_empty());
    let actions = s.execute_cancel_request(rid(1), filter, &Vec::new());
    match &actions[0] {
        ServerAction::SendCancelResponse { response, .. } => {
            assert_eq!(response.return_code, CancelReturnCode::UnknownGoalId);
            assert_eq!(response.return_code.code(), 2);
            assert!(response.goals_canceling.is_empty());
        }
        _ => panic!("expected the cancel response"),
    }
}

#[test]
fn cancel_terminated_specific_goal() {
    let mut s = server();
    let u = GoalUuid(0x12);
    s.execute_goal_request(rid(1), u, vec![], GoalResponse::AcceptAndExecute, 10);
    s.abort_goal(u, vec![]).unwrap();
    let filter = CancelRequestMsg { goal_id: u, stamp: 0 };
    assert!(s.cancel_candidates(filter).is_empty());
    let actions = s.execute_cancel_request(rid(2), filter, &Vec::new());
    match &actions[0] {
        ServerAction::SendCancelResponse { response, .. } => {
            assert_eq!(response.return_code, CancelReturnCode::GoalTerminated);
            assert_eq!(response.return_code.code(), 3);
        }
        _ => panic!("expected the cancel response"),
    }
}

#[test]
fn cancel_by_timestamp_selects_older_goals() {
    let mut s = server();
    let old_goal = GoalUuid(0x21);
    let new_goal = GoalUuid(0x22);
    s.execute_goal_request(rid(1), old_goal, vec![], GoalResponse::AcceptAndExecute, 10);
    s.execute_goal_request(rid(2), new_goal, vec![], GoalResponse::AcceptAndExecute, 20);
    let filter = CancelRequestMsg { goal_id: GoalUuid(0), stamp: 15 };
    assert_eq!(s.cancel_candidates(filter), vec![old_goal]);
    let actions = s.execute_cancel_request(rid(3), filter, &vec![CancelResponse::Accept]);
    assert_eq!(actions.len(), 2);
    assert_eq!(status_of(&s, old_goal), Some(GoalStatus::Canceling));
    assert_eq!(status_of(&s, new_goal), Some(GoalStatus::Executing));
}

#[test]
fn canceled_goal_delivers_canceled_result() {
    let mut s = server();
    let u = GoalUuid(0x13);
    s.execute_goal_request(rid(1), u, vec![], GoalResponse::AcceptAndExecute, 10);
    let filter = CancelRequestMsg { goal_id: u, stamp: 0 };
    s.execute_cancel_request(rid(2), filter, &vec![CancelResponse::Accept]);
    assert_eq!(status_of(&s, u), Some(GoalStatus::Canceling));
    s.execute_result_request(rid(3), u);
    let actions = s.canceled_goal(u, vec![1]).unwrap();
    assert_eq!(status_of(&s, u), Some(GoalStatus::Canceled));
    match &actions[1] {
        ServerAction::SendResultResponse { response, .. } => {
            assert_eq!(response.status, 5);
            assert_eq!(response.result, vec![1]);
        }
        _ => panic!("expected the pending result response"),
    }
}

#[test]
fn expiration_reaps_only_elapsed_terminated_goals() {
    let mut s = ActionServer::new("count", 100).unwrap();
    let done = GoalUuid(0x31);
    let running = GoalUuid(0x32);
    s.execute_goal_request(rid(1), done, vec![], GoalResponse::AcceptAndExecute, 10);
    s.execute_goal_request(rid(2), running, vec![], GoalResponse::AcceptAndExecute, 10);
    s.succeed_goal(done, vec![]).unwrap();
    let actions = s.execute_goal_expired(50);
    assert!(actions.is_empty());
    assert_eq!(s.handle().lock().num_goals(), 2);
    s.execute_goal_expired(200);
    assert_eq!(s.handle().lock().num_goals(), 1);
    assert!(status_of(&s, done).is_none());
    assert_eq!(status_of(&s, running), Some(GoalStatus::Executing));
    // a get-result after expiration is an unknown goal
    let actions = s.execute_result_request(rid(3), done);
    match &actions[0] {
        ServerAction::SendResultResponse { response, .. } => assert_eq!(response.status, 0),
        _ => panic!("expected an unknown-goal response"),
    }
}

#[test]
fn expiration_is_idempotent() {
    let mut s = ActionServer::new("count", 100).unwrap();
    let u = GoalUuid(0x33);
    s.execute_goal_request(rid(1), u, vec![], GoalResponse::AcceptAndExecute, 10);
    s.succeed_goal(u, vec![]).unwrap();
    s.execute_goal_expired(500);
    let count_once = s.handle().lock().num_goals();
    s.execute_goal_expired(500);
    assert_eq!(s.handle().lock().num_goals(), count_once);
    assert_eq!(count_once, 0);
}

#[test]
fn succeed_unknown_goal_is_an_error() {
    let mut s = server();
    assert_eq!(s.succeed_goal(GoalUuid(1), vec![]), Err(ActionServerError::UnknownGoal));
}

#[test]
fn terminal_states_are_final() {
    let mut s = server();
    let u = GoalUuid(0x41);
    s.execute_goal_request(rid(1), u, vec![], GoalResponse::AcceptAndExecute, 10);
    s.succeed_goal(u, vec![]).unwrap();
    assert_eq!(s.succeed_goal(u, vec![]), Err(ActionServerError::InvalidTransition));
    assert_eq!(s.abort_goal(u, vec![]), Err(ActionServerError::InvalidTransition));
    assert_eq!(s.canceled_goal(u, vec![]), Err(ActionServerError::InvalidTransition));
    assert_eq!(s.execute_goal(u), Err(ActionServerError::InvalidTransition));
    assert_eq!(status_of(&s, u), Some(GoalStatus::Succeeded));
}

#[test]
fn canceled_requires_canceling() {
    let mut s = server();
    let u = GoalUuid(0x42);
    s.execute_goal_request(rid(1), u, vec![], GoalResponse::AcceptAndExecute, 10);
    assert_eq!(s.canceled_goal(u, vec![]), Err(ActionServerError::InvalidTransition));
}

#[test]
fn execute_goal_requires_accepted() {
    let mut s = server();
    let u = GoalUuid(0x43);
    s.execute_goal_request(rid(1), u, vec![], GoalResponse::AcceptAndExecute, 10);
    assert_eq!(s.execute_goal(u), Err(ActionServerError::InvalidTransition));
    assert_eq!(s.execute_goal(GoalUuid(0x44)), Err(ActionServerError::UnknownGoal));
}

#[test]
fn bad_topic_name_is_rejected() {
    assert!(matches!(
        ActionServer::new("bad\0name", 10),
        Err(ActionServerError::BadTopicName)
    ));
    assert!(ActionServer::new("good_name", 10).is_ok());
}

#[test]
fn feedback_only_while_active() {
    let mut s = server();
    let u = GoalUuid(0x51);
    s.execute_goal_request(rid(1), u, vec![], GoalResponse::AcceptAndExecute, 10);
    let msg = s.publish_feedback(u, vec![3, 4]).unwrap();
    assert_eq!(msg.uuid, u);
    assert_eq!(msg.feedback, vec![3, 4]);
    // feedback is allowed while canceling
    let filter = CancelRequestMsg { goal_id: u, stamp: 0 };
    s.execute_cancel_request(rid(2), filter, &vec![CancelResponse::Accept]);
    assert!(s.publish_feedback(u, vec![5]).is_ok());
    s.canceled_goal(u, vec![]).unwrap();
    assert_eq!(s.publish_feedback(u, vec![6]), Err(ActionServerError::InvalidTransition));
    assert_eq!(s.publish_feedback(GoalUuid(0x52), vec![]), Err(ActionServerError::UnknownGoal));
}

#[test]
fn send_timeout_is_absorbed() {
    assert_eq!(absorb_send_result(MiddlewareSendResult::Delivered), Ok(()));
    assert_eq!(absorb_send_result(MiddlewareSendResult::Timeout), Ok(()));
    assert_eq!(
        absorb_send_result(MiddlewareSendResult::Failed),
        Err(ActionServerError::Middleware)
    );
}

#[test]
fn dispatch_routes_to_the_handlers() {
    let mut s = server();
    let u = GoalUuid(0x61);
    let ev = ReadyEvent::GoalRequest {
        request: rid(1),
        uuid: u,
        goal: vec![5],
        decision: GoalResponse::AcceptAndDefer,
    };
    assert_eq!(ev.mode(), ReadyMode::GoalRequest);
    let actions = s.execute(ev, 10);
    assert_eq!(actions.len(), 3);
    assert_eq!(status_of(&s, u), Some(GoalStatus::Accepted));
    let ev = ReadyEvent::ResultRequest { request: rid(2), uuid: GoalUuid(0x62) };
    assert_eq!(ev.mode(), ReadyMode::ResultRequest);
    let actions = s.execute(ev, 11);
    assert_eq!(actions.len(), 1);
    let ev = ReadyEvent::CancelRequest {
        request: rid(3),
        filter: CancelRequestMsg { goal_id: GoalUuid(0), stamp: 0 },
        decisions: vec![CancelResponse::Accept],
    };
    assert_eq!(ev.mode(), ReadyMode::CancelRequest);
    let actions = s.execute(ev, 12);
    assert_eq!(actions.len(), 2);
    assert_eq!(status_of(&s, u), Some(GoalStatus::Canceling));
    assert_eq!(ReadyEvent::GoalExpired.mode(), ReadyMode::GoalExpired);
    assert!(s.execute(ReadyEvent::GoalExpired, 13).is_empty());
}

#[test]
fn wait_set_footprint() {
    let s = server();
    let n = s.num_entities();
    assert_eq!(n.num_services, 3);
    assert_eq!(n.num_timers, 1);
    assert_eq!(n.num_subscriptions, 0);
    assert_eq!(n.num_guard_conditions, 0);
    assert_eq!(n.num_clients, 0);
    assert!(!s.handle().in_use_by_wait_set);
}

#[test]
fn status_snapshot_lists_every_goal() {
    let mut s = server();
    s.execute_goal_request(rid(1), GoalUuid(1), vec![], GoalResponse::AcceptAndDefer, 5);
    s.execute_goal_request(rid(2), GoalUuid(2), vec![], GoalResponse::AcceptAndExecute, 6);
    let entries = s.publish_status();
    assert_eq!(entries.len(), 2);
    assert_eq!(entries[0].uuid, GoalUuid(1));
    assert_eq!(entries[0].status, GoalStatus::Accepted);
    assert_eq!(entries[0].stamp, 5);
    assert_eq!(entries[1].uuid, GoalUuid(2));
    assert_eq!(entries[1].status, GoalStatus::Executing);
    assert_eq!(entries[1].stamp, 6);
}

#[test]
fn status_wire_codes() {
    assert_eq!(GoalStatus::Accepted.code(), 1);
    assert_eq!(GoalStatus::Executing.code(), 2);
    assert_eq!(GoalStatus::Canceling.code(), 3);
    assert_eq!(GoalStatus::Succeeded.code(), 4);
    assert_eq!(GoalStatus::Canceled.code(), 5);
    assert_eq!(GoalStatus::Aborted.code(), 6);
}

#[test]
fn aborted_result_carries_aborted_status() {
    let mut s = server();
    let u = GoalUuid(0x71);
    s.execute_goal_request(rid(1), u, vec![], GoalResponse::AcceptAndExecute, 10);
    s.execute_result_request(rid(2), u);
    let actions = s.abort_goal(u, vec![8]).unwrap();
    match &actions[1] {
        ServerAction::SendResultResponse { response, .. } => {
            assert_eq!(response.status, 6);
            assert_eq!(response.result, vec![8]);
        }
        _ => panic!("expected the pending result response"),
    }
}
