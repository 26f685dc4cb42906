//! The per-goal state machine. A handle is created `Accepted`, moves through
//! the active states, and ends in exactly one terminal state, which it never
//! leaves.

use vstd::prelude::*;

use crate::types::{ActionServerError, GoalStatus, GoalUuid};

verus! {

/// One accepted goal: its identity, its immutable payload (the goal message
/// as taken from the wire), its current state, and the timestamp of its
/// acceptance.
pub struct ServerGoalHandle {
    pub uuid: GoalUuid,
    pub goal: Vec<u8>,
    pub status: GoalStatus,
    pub stamp: u64,
}

/// Mathematical image of [`ServerGoalHandle`].
pub struct HandleModel {
    pub uuid: GoalUuid,
    pub goal: Seq<u8>,
    pub status: GoalStatus,
    pub stamp: u64,
}

impl HandleModel {
    /// The same goal with its state replaced.
    pub open spec fn with_status(self, s: GoalStatus) -> HandleModel {
        HandleModel { status: s, ..self }
    }
}

impl View for ServerGoalHandle {
    type V = HandleModel;

    open spec fn view(&self) -> HandleModel {
        HandleModel {
            uuid: self.uuid,
            goal: self.goal@,
            status: self.status,
            stamp: self.stamp,
        }
    }
}

impl DeepView for ServerGoalHandle {
    type V = HandleModel;

    open spec fn deep_view(&self) -> HandleModel {
        self.view()
    }
}

impl ServerGoalHandle {
    /// A freshly accepted goal.
    pub fn new(uuid: GoalUuid, goal: Vec<u8>, stamp: u64) -> (h: Self)
        ensures
            h@ == (HandleModel { uuid, goal: goal@, status: GoalStatus::Accepted, stamp }),
    {
        ServerGoalHandle { uuid, goal, status: GoalStatus::Accepted, stamp }
    }

    /// Whether the goal may still make progress (including while canceling).
    pub fn is_active(&self) -> (b: bool)
        ensures
            b == self@.status.is_active(),
    {
        self.status == GoalStatus::Accepted || self.status == GoalStatus::Executing
            || self.status == GoalStatus::Canceling
    }

    /// Whether the goal is currently executing.
    pub fn is_executing(&self) -> (b: bool)
        ensures
            b == (self@.status == GoalStatus::Executing),
    {
        self.status == GoalStatus::Executing
    }

    /// Whether a cancel request is in flight for this goal.
    pub fn is_canceling(&self) -> (b: bool)
        ensures
            b == (self@.status == GoalStatus::Canceling),
    {
        self.status == GoalStatus::Canceling
    }

    /// Begin execution. Permitted exactly from `Accepted`; any other state
    /// is left unchanged and reported as an invalid transition.
    pub fn execute(&mut self) -> (r: Result<(), ActionServerError>)
        ensures
            old(self)@.status == GoalStatus::Accepted ==> r == Ok::<(), ActionServerError>(())
                && final(self)@ == old(self)@.with_status(GoalStatus::Executing),
            old(self)@.status != GoalStatus::Accepted ==> r == Err::<(), ActionServerError>(
                ActionServerError::InvalidTransition,
            ) && final(self)@ == old(self)@,
    {
        if self.status == GoalStatus::Accepted {
            self.status = GoalStatus::Executing;
            Ok(())
        } else {
            Err(ActionServerError::InvalidTransition)
        }
    }

    /// Note a cancel request. Permitted exactly while the goal is active and
    /// no cancel is already requested.
    pub fn cancel(&mut self) -> (r: Result<(), ActionServerError>)
        ensures
            old(self)@.status.is_cancelable() ==> r == Ok::<(), ActionServerError>(())
                && final(self)@ == old(self)@.with_status(GoalStatus::Canceling),
            !old(self)@.status.is_cancelable() ==> r == Err::<(), ActionServerError>(
                ActionServerError::InvalidTransition,
            ) && final(self)@ == old(self)@,
    {
        if self.status == GoalStatus::Accepted || self.status == GoalStatus::Executing {
            self.status = GoalStatus::Canceling;
            Ok(())
        } else {
            Err(ActionServerError::InvalidTransition)
        }
    }

    /// End the goal successfully. Permitted from any active state.
    pub fn succeed(&mut self) -> (r: Result<(), ActionServerError>)
        ensures
            old(self)@.status.is_active() ==> r == Ok::<(), ActionServerError>(())
                && final(self)@ == old(self)@.with_status(GoalStatus::Succeeded),
            !old(self)@.status.is_active() ==> r == Err::<(), ActionServerError>(
                ActionServerError::InvalidTransition,
            ) && final(self)@ == old(self)@,
    {
        if self.is_active() {
            self.status = GoalStatus::Succeeded;
            Ok(())
        } else {
            Err(ActionServerError::InvalidTransition)
        }
    }

    /// End the goal as aborted. Permitted from any active state.
    pub fn abort(&mut self) -> (r: Result<(), ActionServerError>)
        ensures
            old(self)@.status.is_active() ==> r == Ok::<(), ActionServerError>(())
                && final(self)@ == old(self)@.with_status(GoalStatus::Aborted),
            !old(self)@.status.is_active() ==> r == Err::<(), ActionServerError>(
                ActionServerError::InvalidTransition,
            ) && final(self)@ == old(self)@,
    {
        if self.is_active() {
            self.status = GoalStatus::Aborted;
            Ok(())
        } else {
            Err(ActionServerError::InvalidTransition)
        }
    }

    /// End the goal as canceled. Permitted exactly from `Canceling`.
    pub fn canceled(&mut self) -> (r: Result<(), ActionServerError>)
        ensures
            old(self)@.status == GoalStatus::Canceling ==> r == Ok::<(), ActionServerError>(())
                && final(self)@ == old(self)@.with_status(GoalStatus::Canceled),
            old(self)@.status != GoalStatus::Canceling ==> r == Err::<(), ActionServerError>(
                ActionServerError::InvalidTransition,
            ) && final(self)@ == old(self)@,
    {
        if self.status == GoalStatus::Canceling {
            self.status = GoalStatus::Canceled;
            Ok(())
        } else {
            Err(ActionServerError::InvalidTransition)
        }
    }
}

} // verus!
