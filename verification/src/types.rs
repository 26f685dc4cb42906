//! Plain data carried across the server's boundary: identifiers, callback
//! decisions, goal lifecycle states, and the protocol messages the server
//! asks its caller to put on the wire.

use vstd::prelude::*;

verus! {

/// The 16-byte goal identifier chosen by the remote client, carried as one
/// 128-bit value. Only equality matters; the server never generates one.
/// The all-zero value is reserved: a cancel request uses it to mean
/// "no specific goal".
#[derive(Clone, Copy, PartialEq, Eq, Structural, Debug, Hash)]
pub struct GoalUuid(pub u128);

/// Decision returned by the user's goal callback when a new goal arrives.
#[derive(Clone, Copy, PartialEq, Eq, Structural, Debug)]
pub enum GoalResponse {
    Reject,
    AcceptAndExecute,
    AcceptAndDefer,
}

/// Decision returned by the user's cancel callback for one candidate goal.
#[derive(Clone, Copy, PartialEq, Eq, Structural, Debug)]
pub enum CancelResponse {
    Reject,
    Accept,
}

/// Lifecycle state of one goal. `Accepted` and `Executing` may still be
/// canceled; `Canceling` is active with a cancel request in flight; the
/// last three are terminal and never left.
#[derive(Clone, Copy, PartialEq, Eq, Structural, Debug)]
pub enum GoalStatus {
    Accepted,
    Executing,
    Canceling,
    Succeeded,
    Canceled,
    Aborted,
}

impl GoalStatus {
    /// Active states: the goal still has work in flight.
    pub open spec fn is_active(self) -> bool {
        self == GoalStatus::Accepted || self == GoalStatus::Executing
            || self == GoalStatus::Canceling
    }

    /// Terminal states admit no further transition.
    pub open spec fn is_terminal(self) -> bool {
        self == GoalStatus::Succeeded || self == GoalStatus::Canceled
            || self == GoalStatus::Aborted
    }

    /// A cancel may only begin while no cancel is already requested and the
    /// goal is not terminal.
    pub open spec fn is_cancelable(self) -> bool {
        self == GoalStatus::Accepted || self == GoalStatus::Executing
    }

    /// The wire code of this state in status publications and result
    /// responses; the code 0 is reserved for "unknown goal".
    pub open spec fn spec_code(self) -> u8 {
        match self {
            GoalStatus::Accepted => 1,
            GoalStatus::Executing => 2,
            GoalStatus::Canceling => 3,
            GoalStatus::Succeeded => 4,
            GoalStatus::Canceled => 5,
            GoalStatus::Aborted => 6,
        }
    }

    /// Executable twin of [`GoalStatus::spec_code`].
    #[verifier::when_used_as_spec(spec_code)]
    pub fn code(self) -> (c: u8)
        ensures
            c == self.spec_code(),
    {
        match self {
            GoalStatus::Accepted => 1,
            GoalStatus::Executing => 2,
            GoalStatus::Canceling => 3,
            GoalStatus::Succeeded => 4,
            GoalStatus::Canceled => 5,
            GoalStatus::Aborted => 6,
        }
    }
}

/// Identity of one client request awaiting a response: the requester's
/// writer GUID together with its sequence number.
#[derive(Clone, Copy, PartialEq, Eq, Structural, Debug)]
pub struct RequestId {
    pub writer_guid: u128,
    pub sequence_number: i64,
}

/// Errors surfaced by the server core.
#[derive(Clone, Copy, PartialEq, Eq, Structural, Debug)]
pub enum ActionServerError {
    /// A goal-handle operation was asked of a state that does not permit it.
    InvalidTransition,
    /// The named goal is not (or no longer) known to the server.
    UnknownGoal,
    /// The topic name handed to the constructor contains an interior NUL
    /// byte and cannot name a middleware topic.
    BadTopicName,
    /// The middleware reported a failure that must reach the executor.
    Middleware,
}

/// What the middleware reported when a response was handed to its send
/// primitive.
#[derive(Clone, Copy, PartialEq, Eq, Structural, Debug)]
pub enum MiddlewareSendResult {
    /// The response went out.
    Delivered,
    /// The remote caller stopped waiting; the response is undeliverable.
    Timeout,
    /// Any other failure.
    Failed,
}

/// One row of a status publication: a goal's id, its current state and its
/// acceptance timestamp.
#[derive(Clone, Copy, PartialEq, Eq, Structural, Debug)]
pub struct StatusEntry {
    pub uuid: GoalUuid,
    pub status: GoalStatus,
    pub stamp: u64,
}

/// A goal named in a cancel response: its id and acceptance timestamp.
#[derive(Clone, Copy, PartialEq, Eq, Structural, Debug)]
pub struct GoalInfo {
    pub uuid: GoalUuid,
    pub stamp: u64,
}

/// The goal filter of a cancel request. `goal_id` zero and `stamp` zero
/// select every cancelable goal; a nonzero `stamp` selects every goal
/// accepted at or before it; a nonzero `goal_id` selects that goal; both
/// nonzero select the union.
#[derive(Clone, Copy, PartialEq, Eq, Structural, Debug)]
pub struct CancelRequestMsg {
    pub goal_id: GoalUuid,
    pub stamp: u64,
}

/// Aggregate outcome of a cancel request.
#[derive(Clone, Copy, PartialEq, Eq, Structural, Debug)]
pub enum CancelReturnCode {
    /// No error; the listed goals are now canceling (the list may be empty
    /// when the filter matched nothing).
    Accepted,
    /// Candidates existed, but every one of them was rejected.
    Rejected,
    /// The filter named a specific goal the server does not know.
    UnknownGoalId,
    /// The filter named a specific goal that is already terminal.
    GoalTerminated,
}

impl CancelReturnCode {
    /// The wire code of this outcome in the cancel response.
    pub open spec fn spec_code(self) -> u8 {
        match self {
            CancelReturnCode::Accepted => 0,
            CancelReturnCode::Rejected => 1,
            CancelReturnCode::UnknownGoalId => 2,
            CancelReturnCode::GoalTerminated => 3,
        }
    }

    /// Executable twin of [`CancelReturnCode::spec_code`].
    #[verifier::when_used_as_spec(spec_code)]
    pub fn code(self) -> (c: u8)
        ensures
            c == self.spec_code(),
    {
        match self {
            CancelReturnCode::Accepted => 0,
            CancelReturnCode::Rejected => 1,
            CancelReturnCode::UnknownGoalId => 2,
            CancelReturnCode::GoalTerminated => 3,
        }
    }
}

/// The body of a cancel response: a return code and the goals now
/// canceling, compacted to the front in candidate order.
#[derive(PartialEq, Eq, Debug)]
pub struct CancelResponseMsg {
    pub return_code: CancelReturnCode,
    pub goals_canceling: Vec<GoalInfo>,
}

/// Mathematical image of [`CancelResponseMsg`].
pub struct CancelResponseModel {
    pub return_code: CancelReturnCode,
    pub goals_canceling: Seq<GoalInfo>,
}

impl View for CancelResponseMsg {
    type V = CancelResponseModel;

    open spec fn view(&self) -> CancelResponseModel {
        CancelResponseModel {
            return_code: self.return_code,
            goals_canceling: self.goals_canceling@,
        }
    }
}

impl DeepView for CancelResponseMsg {
    type V = CancelResponseModel;

    open spec fn deep_view(&self) -> CancelResponseModel {
        self.view()
    }
}

/// The body of a result response: the goal's status code (0 for an unknown
/// goal) and the serialized result payload (empty for an unknown goal).
#[derive(PartialEq, Eq, Debug)]
pub struct ResultResponseMsg {
    pub status: u8,
    pub result: Vec<u8>,
}

/// Mathematical image of [`ResultResponseMsg`].
pub struct ResultResponseModel {
    pub status: u8,
    pub result: Seq<u8>,
}

impl View for ResultResponseMsg {
    type V = ResultResponseModel;

    open spec fn view(&self) -> ResultResponseModel {
        ResultResponseModel { status: self.status, result: self.result@ }
    }
}

impl DeepView for ResultResponseMsg {
    type V = ResultResponseModel;

    open spec fn deep_view(&self) -> ResultResponseModel {
        self.view()
    }
}

/// A feedback message: the owning goal's id and the serialized feedback
/// payload.
#[derive(PartialEq, Eq, Debug)]
pub struct FeedbackMsg {
    pub uuid: GoalUuid,
    pub feedback: Vec<u8>,
}

/// Mathematical image of [`FeedbackMsg`].
pub struct FeedbackModel {
    pub uuid: GoalUuid,
    pub feedback: Seq<u8>,
}

impl View for FeedbackMsg {
    type V = FeedbackModel;

    open spec fn view(&self) -> FeedbackModel {
        FeedbackModel { uuid: self.uuid, feedback: self.feedback@ }
    }
}

impl DeepView for FeedbackMsg {
    type V = FeedbackModel;

    open spec fn deep_view(&self) -> FeedbackModel {
        self.view()
    }
}

/// One instruction to the surrounding runtime, emitted by a handler. The
/// caller performs the actions of a handler's list strictly in order; this
/// is what makes a status publication precede the responses it must
/// precede.
#[derive(PartialEq, Eq, Debug)]
pub enum ServerAction {
    /// Publish a full status snapshot on the status topic.
    PublishStatus { entries: Vec<StatusEntry> },
    /// Answer a send-goal request.
    SendGoalResponse { request: RequestId, accepted: bool },
    /// Answer a cancel request.
    SendCancelResponse { request: RequestId, response: CancelResponseMsg },
    /// Answer a get-result request.
    SendResultResponse { request: RequestId, response: ResultResponseMsg },
    /// Publish a feedback message on the feedback topic.
    PublishFeedback { message: FeedbackMsg },
    /// Invoke the user's accepted callback for this goal.
    InvokeAcceptedCallback { uuid: GoalUuid },
}

/// Mathematical image of [`ServerAction`].
pub enum ActionModel {
    PublishStatus { entries: Seq<StatusEntry> },
    SendGoalResponse { request: RequestId, accepted: bool },
    SendCancelResponse { request: RequestId, response: CancelResponseModel },
    SendResultResponse { request: RequestId, response: ResultResponseModel },
    PublishFeedback { message: FeedbackModel },
    InvokeAcceptedCallback { uuid: GoalUuid },
}

impl View for ServerAction {
    type V = ActionModel;

    open spec fn view(&self) -> ActionModel {
        match self {
            ServerAction::PublishStatus { entries } => ActionModel::PublishStatus {
                entries: entries@,
            },
            ServerAction::SendGoalResponse { request, accepted } => ActionModel::SendGoalResponse {
                request: *request,
                accepted: *accepted,
            },
            ServerAction::SendCancelResponse { request, response } => (
            ActionModel::SendCancelResponse { request: *request, response: response@ }),
            ServerAction::SendResultResponse { request, response } => (
            ActionModel::SendResultResponse { request: *request, response: response@ }),
            ServerAction::PublishFeedback { message } => ActionModel::PublishFeedback {
                message: message@,
            },
            ServerAction::InvokeAcceptedCallback { uuid } => ActionModel::InvokeAcceptedCallback {
                uuid: *uuid,
            },
        }
    }
}

impl DeepView for ServerAction {
    type V = ActionModel;

    open spec fn deep_view(&self) -> ActionModel {
        self.view()
    }
}

/// The four readiness sources an executor can report for one action server.
#[derive(Clone, Copy, PartialEq, Eq, Structural, Debug)]
pub enum ReadyMode {
    GoalRequest,
    CancelRequest,
    ResultRequest,
    GoalExpired,
}

/// How many wait-set entities of each kind one action server occupies.
#[derive(Clone, Copy, PartialEq, Eq, Structural, Debug)]
pub struct WaitableNumEntities {
    pub num_subscriptions: usize,
    pub num_guard_conditions: usize,
    pub num_timers: usize,
    pub num_clients: usize,
    pub num_services: usize,
}

} // verus!
