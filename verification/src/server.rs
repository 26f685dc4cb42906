//! The action server core: it owns the goal bookkeeping, dispatches the four
//! readiness events, runs the cancellation protocol, drives expiration, and
//! serves the user-facing goal-handle operations.
//!
//! Middleware work (taking requests, sending responses, publishing) and user
//! callbacks are performed by the surrounding runtime: each handler takes the
//! taken request together with the callback's decision as plain values and
//! returns the ordered [`ServerAction`] list to perform. Performing the list
//! in order preserves the protocol's guarantee that a status publication
//! precedes the responses that depend on it.

use vstd::prelude::*;
use vstd::string::StringSliceAdditionalSpecFns;

use crate::handle::{HandleModel, ServerGoalHandle};
use crate::registry::{
    copy_bytes, enqueue_model, entry_of, expired, has_key, index_of_key, keep, keys_unique,
    lemma_index_of_key, lemma_key_at, lemma_keep_keyed, lemma_keep_membership, lemma_sweep_wf,
    pending_of, remove_key, sweep_model, GoalRegistry, Keyed, RegistryModel, ResultModel,
};
use crate::types::{
    ActionModel, ActionServerError, CancelRequestMsg, CancelResponse, CancelResponseModel,
    CancelResponseMsg, CancelReturnCode, FeedbackModel, FeedbackMsg, GoalInfo, GoalResponse,
    GoalStatus, GoalUuid, MiddlewareSendResult, ReadyMode, RequestId, ResultResponseModel,
    ResultResponseMsg, ServerAction, StatusEntry, WaitableNumEntities,
};

verus! {

/// Owner of the server's mutable goal state. A concurrent runtime guards
/// this state with a lock shared between the executor and user threads; here
/// every access flows through an exclusive borrow, and [`lock`] is the
/// shared read entry point.
///
/// [`lock`]: ActionServerHandle::lock
pub struct ActionServerHandle {
    registry: GoalRegistry,
    /// Set by an executor while the server is registered with its wait set,
    /// to prevent double registration.
    pub in_use_by_wait_set: bool,
}

impl View for ActionServerHandle {
    type V = RegistryModel;

    closed spec fn view(&self) -> RegistryModel {
        self.registry@
    }
}

impl ActionServerHandle {
    /// Read access to the goal bookkeeping.
    pub fn lock(&self) -> (r: &GoalRegistry)
        ensures
            r@ == self@,
    {
        &self.registry
    }
}

/// The server's mathematical state: its goal bookkeeping and the retention
/// window for terminated goals.
pub struct ServerModel {
    pub registry: RegistryModel,
    pub retention: u64,
}

impl ServerModel {
    /// The server invariant: the registry invariant, strengthened by
    /// completeness of the result cache — a goal is terminal exactly when
    /// its result is cached.
    pub open spec fn wf(self) -> bool {
        &&& self.registry.wf()
        &&& forall|i: int|
            0 <= i < self.registry.handles.len() ==> ((#[trigger] self.registry.handles[i]).status.is_terminal()
                <==> has_key(self.registry.results, self.registry.handles[i].uuid))
    }
}

/// The wait-set footprint of one action server: its three request/response
/// services (send-goal, cancel-goal, get-result) and the expiration timer.
pub open spec fn spec_entity_counts() -> WaitableNumEntities {
    WaitableNumEntities {
        num_subscriptions: 0,
        num_guard_conditions: 0,
        num_timers: 1,
        num_clients: 0,
        num_services: 3,
    }
}

/// The state a goal starts in for each accepting decision.
pub open spec fn initial_status(decision: GoalResponse) -> GoalStatus {
    if decision == GoalResponse::AcceptAndExecute {
        GoalStatus::Executing
    } else {
        GoalStatus::Accepted
    }
}

/// The full status snapshot of a handle sequence: one `(id, state, stamp)`
/// row per known goal, in registry order.
pub open spec fn snapshot_of(handles: Seq<HandleModel>) -> Seq<StatusEntry> {
    handles.map_values(
        |h: HandleModel| StatusEntry { uuid: h.uuid, status: h.status, stamp: h.stamp },
    )
}

/// The registry after a goal request was answered: a rejected goal leaves no
/// trace; an accepted one is registered in its initial state, stamped with
/// its acceptance time.
pub open spec fn goal_request_registry(
    r: RegistryModel,
    uuid: GoalUuid,
    goal: Seq<u8>,
    decision: GoalResponse,
    now: u64,
) -> RegistryModel {
    if decision == GoalResponse::Reject {
        r
    } else {
        RegistryModel {
            handles: r.handles.push(
                HandleModel { uuid, goal, status: initial_status(decision), stamp: now },
            ),
            ..r
        }
    }
}

/// What a goal request emits: the goal response first; for an accepted goal
/// a status snapshot follows, and the accepted callback runs last.
pub open spec fn goal_request_actions(
    new_reg: RegistryModel,
    request: RequestId,
    uuid: GoalUuid,
    decision: GoalResponse,
) -> Seq<ActionModel> {
    if decision == GoalResponse::Reject {
        seq![ActionModel::SendGoalResponse { request, accepted: false }]
    } else {
        seq![
            ActionModel::SendGoalResponse { request, accepted: true },
            ActionModel::PublishStatus { entries: snapshot_of(new_reg.handles) },
            ActionModel::InvokeAcceptedCallback { uuid },
        ]
    }
}

/// The registry after a get-result request: only a request for a known goal
/// whose result is still pending is queued; everything else is answered at
/// once and changes nothing.
pub open spec fn result_request_registry(
    r: RegistryModel,
    request: RequestId,
    uuid: GoalUuid,
) -> RegistryModel {
    if has_key(r.handles, uuid) && !has_key(r.results, uuid) {
        RegistryModel { requests: enqueue_model(r.requests, uuid, request), ..r }
    } else {
        r
    }
}

/// What a get-result request emits: an unknown goal is answered with the
/// reserved status code 0 and an empty payload; a terminated goal with its
/// cached result; a pending goal is answered later, at termination.
pub open spec fn result_request_actions(
    r: RegistryModel,
    request: RequestId,
    uuid: GoalUuid,
) -> Seq<ActionModel> {
    if !has_key(r.handles, uuid) {
        seq![
            ActionModel::SendResultResponse {
                request,
                response: ResultResponseModel { status: 0, result: Seq::empty() },
            },
        ]
    } else if has_key(r.results, uuid) {
        seq![
            ActionModel::SendResultResponse {
                request,
                response: ResultResponseModel {
                    status: entry_of(r.handles, uuid).status.spec_code(),
                    result: entry_of(r.results, uuid).result,
                },
            },
        ]
    } else {
        Seq::empty()
    }
}

/// The registry after a goal reaches the terminal state `terminal`: the
/// handle's state advances, the result is cached, and the goal's queue of
/// pending get-result requests leaves the registry.
pub open spec fn finish_registry(
    r: RegistryModel,
    uuid: GoalUuid,
    terminal: GoalStatus,
    result: Seq<u8>,
) -> RegistryModel {
    RegistryModel {
        handles: r.handles.update(
            index_of_key(r.handles, uuid),
            entry_of(r.handles, uuid).with_status(terminal),
        ),
        results: r.results.push(ResultModel { uuid, result }),
        requests: remove_key(r.requests, uuid),
    }
}

/// One result response per pending request, all carrying the same terminal
/// status and result payload, in arrival order.
pub open spec fn response_list(
    pending: Seq<RequestId>,
    terminal: GoalStatus,
    result: Seq<u8>,
) -> Seq<ActionModel> {
    pending.map_values(
        |rq: RequestId| ActionModel::SendResultResponse {
            request: rq,
            response: ResultResponseModel { status: terminal.spec_code(), result },
        },
    )
}

/// What a terminal transition emits: the status snapshot that announces the
/// terminal state strictly precedes every result response delivering it.
pub open spec fn finish_actions(
    old_reg: RegistryModel,
    new_reg: RegistryModel,
    uuid: GoalUuid,
    terminal: GoalStatus,
    result: Seq<u8>,
) -> Seq<ActionModel> {
    seq![ActionModel::PublishStatus { entries: snapshot_of(new_reg.handles) }] + response_list(
        pending_of(old_reg.requests, uuid),
        terminal,
        result,
    )
}

/// The registry after a deferred goal starts executing.
pub open spec fn execute_goal_registry(r: RegistryModel, uuid: GoalUuid) -> RegistryModel {
    RegistryModel {
        handles: r.handles.update(
            index_of_key(r.handles, uuid),
            entry_of(r.handles, uuid).with_status(GoalStatus::Executing),
        ),
        ..r
    }
}

/// Replacing one non-terminal state by another non-terminal state keeps the
/// result cache complete.
proof fn lemma_update_status_completeness(
    s: ServerModel,
    t: RegistryModel,
    uuid: GoalUuid,
    st: GoalStatus,
)
    requires
        s.wf(),
        has_key(s.registry.handles, uuid),
        !entry_of(s.registry.handles, uuid).status.is_terminal(),
        !st.is_terminal(),
        t.handles == s.registry.handles.update(
            index_of_key(s.registry.handles, uuid),
            entry_of(s.registry.handles, uuid).with_status(st),
        ),
        t.results == s.registry.results,
    ensures
        forall|i: int|
            0 <= i < t.handles.len() ==> ((#[trigger] t.handles[i]).status.is_terminal() <==> has_key(
                t.results,
                t.handles[i].uuid,
            )),
{
    let idx = index_of_key(s.registry.handles, uuid);
    lemma_index_of_key(s.registry.handles, uuid);
    assert forall|i: int|
        0 <= i < t.handles.len() implies ((#[trigger] t.handles[i]).status.is_terminal() <==> has_key(
        t.results,
        t.handles[i].uuid,
    )) by {
        if i == idx {
            assert(t.handles[i].uuid == uuid);
            assert(s.registry.handles[idx].status.is_terminal() <==> has_key(
                s.registry.results,
                uuid,
            ));
        } else {
            assert(t.handles[i] == s.registry.handles[i]);
        }
    }
}

/// An expiration sweep preserves the server invariant: every surviving goal
/// keeps its handle, and its result is cached exactly when it is terminal.
pub proof fn lemma_sweep_preserves_completeness(s: ServerModel, now: u64)
    requires
        s.wf(),
    ensures
        (ServerModel {
            registry: sweep_model(s.registry, now, s.retention),
            retention: s.retention,
        }).wf(),
{
    let r = s.registry;
    let retention = s.retention;
    let t = sweep_model(r, now, retention);
    lemma_sweep_wf(r, now, retention);
    let hpred = |h: HandleModel| !expired(h, now, retention);
    let live = keep(r.handles, hpred);
    let rpred = |e: ResultModel| has_key(live, e.uuid);
    lemma_keep_membership(r.handles, hpred);
    assert forall|i: int|
        0 <= i < t.handles.len() implies ((#[trigger] t.handles[i]).status.is_terminal()
        <==> has_key(t.results, t.handles[i].uuid)) by {
        let h = t.handles[i];
        assert(r.handles.contains(h));
        let k = choose|k: int| 0 <= k < r.handles.len() && r.handles[k] == h;
        assert(r.handles[k].status.is_terminal() <==> has_key(r.results, r.handles[k].uuid));
        assert((#[trigger] t.handles[i]).key() == h.uuid);
        assert(has_key(live, h.uuid));
        lemma_keep_keyed(r.results, rpred, h.uuid);
    }
}

/// Whether a goal matches a cancel request's filter: a zero id with a zero
/// stamp selects everything, a nonzero stamp selects every goal accepted at
/// or before it, and a nonzero id selects that goal.
pub open spec fn cancel_matches(h: HandleModel, f: CancelRequestMsg) -> bool {
    (f.goal_id.0 == 0 && f.stamp == 0) || (f.stamp != 0 && h.stamp <= f.stamp) || (f.goal_id.0 != 0
        && h.uuid == f.goal_id)
}

/// The candidates of one cancel request, in registry order: the cancelable
/// goals matching the filter. A filter naming a specific goal that is
/// unknown or already terminal yields no candidates; the return code then
/// reports why.
pub open spec fn cancel_candidates_model(r: RegistryModel, f: CancelRequestMsg) -> Seq<GoalUuid> {
    if f.goal_id.0 != 0 && !has_key(r.handles, f.goal_id) {
        Seq::empty()
    } else if f.goal_id.0 != 0 && f.stamp == 0 && !entry_of(
        r.handles,
        f.goal_id,
    ).status.is_cancelable() {
        Seq::empty()
    } else {
        keep(r.handles, |h: HandleModel| h.status.is_cancelable() && cancel_matches(h, f))
            .map_values(|h: HandleModel| h.uuid)
    }
}

/// The candidates the user accepted among the first `n`, in candidate
/// order.
pub open spec fn accepted_prefix(cands: Seq<GoalUuid>, ds: Seq<CancelResponse>, n: int) -> Seq<
    GoalUuid,
>
    decreases n,
{
    if n <= 0 {
        Seq::empty()
    } else {
        let p = accepted_prefix(cands, ds, n - 1);
        if ds[n - 1] == CancelResponse::Accept {
            p.push(cands[n - 1])
        } else {
            p
        }
    }
}

/// The candidates the user accepted, in candidate order.
pub open spec fn accepted_uuids(cands: Seq<GoalUuid>, ds: Seq<CancelResponse>) -> Seq<GoalUuid> {
    accepted_prefix(cands, ds, cands.len() as int)
}

/// The handles after the accepted candidates moved to `Canceling`.
pub open spec fn set_canceling(hs: Seq<HandleModel>, accepted: Seq<GoalUuid>) -> Seq<HandleModel> {
    hs.map_values(
        |h: HandleModel| if accepted.contains(h.uuid) {
            h.with_status(GoalStatus::Canceling)
        } else {
            h
        },
    )
}

/// The registry after a cancel request: only the accepted candidates'
/// states change.
pub open spec fn cancel_registry(r: RegistryModel, accepted: Seq<GoalUuid>) -> RegistryModel {
    RegistryModel { handles: set_canceling(r.handles, accepted), ..r }
}

/// The response's goal list: one descriptor per accepted candidate,
/// compacted at the front in candidate order.
pub open spec fn canceling_infos(r: RegistryModel, accepted: Seq<GoalUuid>) -> Seq<GoalInfo> {
    accepted.map_values(|u: GoalUuid| GoalInfo { uuid: u, stamp: entry_of(r.handles, u).stamp })
}

/// The aggregate return code: unknown or terminated specific goals are
/// reported as such; candidates that were all rejected yield `Rejected`,
/// distinct from a filter that matched nothing.
pub open spec fn cancel_return_code(
    r: RegistryModel,
    f: CancelRequestMsg,
    n_cands: int,
    n_accepted: int,
) -> CancelReturnCode {
    if f.goal_id.0 != 0 && !has_key(r.handles, f.goal_id) {
        CancelReturnCode::UnknownGoalId
    } else if f.goal_id.0 != 0 && f.stamp == 0 && entry_of(
        r.handles,
        f.goal_id,
    ).status.is_terminal() {
        CancelReturnCode::GoalTerminated
    } else if n_cands > 0 && n_accepted == 0 {
        CancelReturnCode::Rejected
    } else {
        CancelReturnCode::Accepted
    }
}

/// What a cancel request emits: when any goal moved to `Canceling`, the
/// status snapshot announcing it strictly precedes the cancel response.
pub open spec fn cancel_actions(
    new_reg: RegistryModel,
    request: RequestId,
    response: CancelResponseModel,
) -> Seq<ActionModel> {
    if response.goals_canceling.len() > 0 {
        seq![
            ActionModel::PublishStatus { entries: snapshot_of(new_reg.handles) },
            ActionModel::SendCancelResponse { request, response },
        ]
    } else {
        seq![ActionModel::SendCancelResponse { request, response }]
    }
}

/// An element pushed at the back is contained; nothing else changes.
pub proof fn lemma_push_contains<T>(s: Seq<T>, x: T, y: T)
    ensures
        s.push(x).contains(y) <==> (s.contains(y) || x == y),
{
    if s.push(x).contains(y) {
        let k = choose|k: int| 0 <= k < s.push(x).len() && s.push(x)[k] == y;
        if k < s.len() {
            assert(s[k] == y);
        }
    }
    if s.contains(y) {
        let k = choose|k: int| 0 <= k < s.len() && s[k] == y;
        assert(s.push(x)[k] == y);
    }
    if x == y {
        assert(s.push(x)[s.len() as int] == y);
    }
}

/// Every accepted candidate is one of the first `n` candidates.
pub proof fn lemma_accepted_prefix_membership(cands: Seq<GoalUuid>, ds: Seq<CancelResponse>, n: int)
    ensures
        forall|x: GoalUuid|
            accepted_prefix(cands, ds, n).contains(x) ==> exists|k: int|
                0 <= k < n && cands[k] == x,
    decreases n,
{
    if n > 0 {
        lemma_accepted_prefix_membership(cands, ds, n - 1);
        assert forall|x: GoalUuid| accepted_prefix(cands, ds, n).contains(x) implies exists|k: int|
            0 <= k < n && cands[k] == x by {
            let p = accepted_prefix(cands, ds, n - 1);
            if ds[n - 1] == CancelResponse::Accept {
                lemma_push_contains(p, cands[n - 1], x);
                if p.contains(x) {
                    let k = choose|k: int| 0 <= k < n - 1 && cands[k] == x;
                    assert(0 <= k < n && cands[k] == x);
                }
            }
        }
    }
}

/// Every candidate names a known, cancelable goal matching the filter, and
/// no goal is named twice.
pub proof fn lemma_candidates(r: RegistryModel, f: CancelRequestMsg)
    requires
        keys_unique(r.handles),
    ensures
        ({
            let cands = cancel_candidates_model(r, f);
            &&& forall|j: int|
                0 <= j < cands.len() ==> has_key(r.handles, #[trigger] cands[j]) && entry_of(
                    r.handles,
                    cands[j],
                ).status.is_cancelable() && cancel_matches(entry_of(r.handles, cands[j]), f)
            &&& forall|a: int, b: int|
                0 <= a < b < cands.len() ==> #[trigger] cands[a] != #[trigger] cands[b]
        }),
{
    let cands = cancel_candidates_model(r, f);
    let pred = |h: HandleModel| h.status.is_cancelable() && cancel_matches(h, f);
    if !(f.goal_id.0 != 0 && !has_key(r.handles, f.goal_id)) && !(f.goal_id.0 != 0 && f.stamp == 0
        && !entry_of(r.handles, f.goal_id).status.is_cancelable()) {
        let kept = keep(r.handles, pred);
        lemma_keep_membership(r.handles, pred);
        lemma_keep_keyed(r.handles, pred, GoalUuid(0));
        assert forall|j: int|
            0 <= j < cands.len() implies has_key(r.handles, #[trigger] cands[j]) && entry_of(
            r.handles,
            cands[j],
        ).status.is_cancelable() && cancel_matches(entry_of(r.handles, cands[j]), f) by {
            assert(cands[j] == kept[j].uuid);
            assert(pred(kept[j]) && r.handles.contains(kept[j]));
            let k = choose|k: int| 0 <= k < r.handles.len() && r.handles[k] == kept[j];
            lemma_key_at(r.handles, k);
        }
        assert forall|a: int, b: int|
            0 <= a < b < cands.len() implies #[trigger] cands[a] != #[trigger] cands[b] by {
            assert(cands[a] == kept[a].key() && cands[b] == kept[b].key());
        }
    }
}

/// How `set_canceling` treats one key: keys and their positions survive,
/// and only accepted goals change, by moving to `Canceling`.
pub proof fn lemma_set_canceling_entry(hs: Seq<HandleModel>, accepted: Seq<GoalUuid>, u: GoalUuid)
    requires
        keys_unique(hs),
    ensures
        keys_unique(set_canceling(hs, accepted)),
        has_key(set_canceling(hs, accepted), u) <==> has_key(hs, u),
        has_key(hs, u) ==> index_of_key(set_canceling(hs, accepted), u) == index_of_key(hs, u),
        has_key(hs, u) ==> entry_of(set_canceling(hs, accepted), u) == (if accepted.contains(u) {
            entry_of(hs, u).with_status(GoalStatus::Canceling)
        } else {
            entry_of(hs, u)
        }),
{
    let t = set_canceling(hs, accepted);
    assert(forall|k: int| 0 <= k < t.len() ==> (#[trigger] t[k]).key() == hs[k].key());
    assert forall|a: int, b: int| 0 <= a < b < t.len() implies (#[trigger] t[a]).key() != (
    #[trigger] t[b]).key() by {
        assert(t[a].key() == hs[a].key() && t[b].key() == hs[b].key());
    }
    if has_key(hs, u) {
        let i = index_of_key(hs, u);
        lemma_index_of_key(hs, u);
        assert(t[i].key() == u);
        lemma_key_at(t, i);
    }
    if has_key(t, u) {
        let i = index_of_key(t, u);
        lemma_index_of_key(t, u);
        assert(hs[i].key() == u);
        lemma_key_at(hs, i);
    }
}

/// One readiness event, paired with the outside decisions its handling
/// depends on: the taken request and the relevant user-callback answers.
pub enum ReadyEvent {
    /// A send-goal request was taken; `decision` is the goal callback's
    /// answer for it.
    GoalRequest { request: RequestId, uuid: GoalUuid, goal: Vec<u8>, decision: GoalResponse },
    /// A cancel request was taken; `decisions` are the cancel callback's
    /// answers for the candidates, in candidate order.
    CancelRequest { request: RequestId, filter: CancelRequestMsg, decisions: Vec<CancelResponse> },
    /// A get-result request was taken.
    ResultRequest { request: RequestId, uuid: GoalUuid },
    /// The expiration timer fired.
    GoalExpired,
}

impl ReadyEvent {
    /// The readiness source this event came from.
    pub fn mode(&self) -> (m: ReadyMode)
        ensures
            m == match self.deep_view() {
                EventModel::GoalRequest { .. } => ReadyMode::GoalRequest,
                EventModel::CancelRequest { .. } => ReadyMode::CancelRequest,
                EventModel::ResultRequest { .. } => ReadyMode::ResultRequest,
                EventModel::GoalExpired => ReadyMode::GoalExpired,
            },
    {
        match self {
            ReadyEvent::GoalRequest { .. } => ReadyMode::GoalRequest,
            ReadyEvent::CancelRequest { .. } => ReadyMode::CancelRequest,
            ReadyEvent::ResultRequest { .. } => ReadyMode::ResultRequest,
            ReadyEvent::GoalExpired => ReadyMode::GoalExpired,
        }
    }
}

/// Mathematical image of [`ReadyEvent`].
pub enum EventModel {
    GoalRequest { request: RequestId, uuid: GoalUuid, goal: Seq<u8>, decision: GoalResponse },
    CancelRequest { request: RequestId, filter: CancelRequestMsg, decisions: Seq<CancelResponse> },
    ResultRequest { request: RequestId, uuid: GoalUuid },
    GoalExpired,
}

impl View for ReadyEvent {
    type V = EventModel;

    open spec fn view(&self) -> EventModel {
        match self {
            ReadyEvent::GoalRequest { request, uuid, goal, decision } => EventModel::GoalRequest {
                request: *request,
                uuid: *uuid,
                goal: goal@,
                decision: *decision,
            },
            ReadyEvent::CancelRequest { request, filter, decisions } => (
            EventModel::CancelRequest {
                request: *request,
                filter: *filter,
                decisions: decisions@,
            }),
            ReadyEvent::ResultRequest { request, uuid } => EventModel::ResultRequest {
                request: *request,
                uuid: *uuid,
            },
            ReadyEvent::GoalExpired => EventModel::GoalExpired,
        }
    }
}

impl DeepView for ReadyEvent {
    type V = EventModel;

    open spec fn deep_view(&self) -> EventModel {
        self.view()
    }
}

/// What an event asks of its caller before it may be dispatched: an
/// accepting goal decision only for a fresh goal id (the middleware never
/// accepts a known id twice), and one cancel decision per candidate.
pub open spec fn event_permitted(s: ServerModel, e: EventModel) -> bool {
    match e {
        EventModel::GoalRequest { uuid, decision, .. } => decision != GoalResponse::Reject
            ==> !has_key(s.registry.handles, uuid),
        EventModel::CancelRequest { filter, decisions, .. } => decisions.len()
            == cancel_candidates_model(s.registry, filter).len(),
        EventModel::ResultRequest { .. } => true,
        EventModel::GoalExpired => true,
    }
}

/// The registry after dispatching one event.
pub open spec fn step_registry(s: ServerModel, e: EventModel, now: u64) -> RegistryModel {
    match e {
        EventModel::GoalRequest { uuid, goal, decision, .. } => goal_request_registry(
            s.registry,
            uuid,
            goal,
            decision,
            now,
        ),
        EventModel::CancelRequest { filter, decisions, .. } => cancel_registry(
            s.registry,
            accepted_uuids(cancel_candidates_model(s.registry, filter), decisions),
        ),
        EventModel::ResultRequest { request, uuid } => result_request_registry(
            s.registry,
            request,
            uuid,
        ),
        EventModel::GoalExpired => sweep_model(s.registry, now, s.retention),
    }
}

/// What dispatching one event emits.
pub open spec fn step_actions(s: ServerModel, e: EventModel, now: u64) -> Seq<ActionModel> {
    match e {
        EventModel::GoalRequest { request, uuid, decision, .. } => goal_request_actions(
            step_registry(s, e, now),
            request,
            uuid,
            decision,
        ),
        EventModel::CancelRequest { request, filter, decisions } => ({
            let cands = cancel_candidates_model(s.registry, filter);
            let acc = accepted_uuids(cands, decisions);
            cancel_actions(
                step_registry(s, e, now),
                request,
                CancelResponseModel {
                    return_code: cancel_return_code(
                        s.registry,
                        filter,
                        cands.len() as int,
                        acc.len() as int,
                    ),
                    goals_canceling: canceling_infos(s.registry, acc),
                },
            )
        }),
        EventModel::ResultRequest { request, uuid } => result_request_actions(
            s.registry,
            request,
            uuid,
        ),
        EventModel::GoalExpired => Seq::empty(),
    }
}

/// The response-send policy: a middleware timeout means the remote caller
/// stopped waiting, which is logged and swallowed; any other failure
/// propagates to the executor.
pub fn absorb_send_result(r: MiddlewareSendResult) -> (out: Result<(), ActionServerError>)
    ensures
        r != MiddlewareSendResult::Failed ==> out == Ok::<(), ActionServerError>(()),
        r == MiddlewareSendResult::Failed ==> out == Err::<(), ActionServerError>(
            ActionServerError::Middleware,
        ),
{
    match r {
        MiddlewareSendResult::Delivered => Ok(()),
        MiddlewareSendResult::Timeout => Ok(()),
        MiddlewareSendResult::Failed => Err(ActionServerError::Middleware),
    }
}

/// What a concrete action server exposes to an executor: its wait-set
/// footprint, its state handle, and the single dispatch entry point.
pub trait ActionServerBase: View<V = ServerModel> {
    /// The handle owning the server's goal state.
    fn handle(&self) -> (r: &ActionServerHandle)
        ensures
            r@ == self@.registry,
    ;

    /// The server's wait-set footprint.
    fn num_entities(&self) -> (r: WaitableNumEntities)
        ensures
            r == spec_entity_counts(),
    ;

    /// Dispatch one readiness event: a pure switch to the four handlers.
    fn execute(&mut self, event: ReadyEvent, now: u64) -> (actions: Vec<ServerAction>)
        requires
            old(self)@.wf(),
            event_permitted(old(self)@, event.deep_view()),
        ensures
            final(self)@.wf(),
            final(self)@.retention == old(self)@.retention,
            final(self)@.registry == step_registry(old(self)@, event.deep_view(), now),
            actions.deep_view() == step_actions(old(self)@, event.deep_view(), now),
    ;
}

/// The action server core. Construction takes the action name the
/// middleware entities are created under and the retention window (in the
/// clock's ticks) that terminated goals are held for before expiring.
pub struct ActionServer {
    handle: ActionServerHandle,
    topic: String,
    retention: u64,
}

impl View for ActionServer {
    type V = ServerModel;

    closed spec fn view(&self) -> ServerModel {
        ServerModel { registry: self.handle@, retention: self.retention }
    }
}

impl ActionServer {
    /// A new server with no goals. The topic name must be middleware-usable:
    /// a name with an interior NUL byte is rejected, as it cannot be handed
    /// to the underlying C middleware.
    pub fn new(topic: &str, retention: u64) -> (r: Result<ActionServer, ActionServerError>)
        ensures
            match r {
                Ok(s) => !topic.spec_bytes().contains(0) && s@.wf() && s@.retention == retention
                    && s@.registry.handles == Seq::<HandleModel>::empty()
                    && s@.registry.results == Seq::<ResultModel>::empty()
                    && s@.registry.requests == Seq::<crate::registry::RequestQueueModel>::empty(),
                Err(e) => e == ActionServerError::BadTopicName && topic.spec_bytes().contains(0),
            },
    {
        let bytes = topic.as_bytes();
        let n = bytes.len();
        let mut i: usize = 0;
        while i < n
            invariant
                n == topic.spec_bytes().len(),
                bytes@ == topic.spec_bytes(),
                0 <= i <= n,
                forall|j: int| 0 <= j < i ==> topic.spec_bytes()[j] != 0,
            decreases n - i,
        {
            if bytes[i] == 0 {
                proof {
                    assert(topic.spec_bytes().contains(0));
                }
                return Err(ActionServerError::BadTopicName);
            }
            i += 1;
        }
        proof {
            assert(!topic.spec_bytes().contains(0)) by {
                if topic.spec_bytes().contains(0) {
                    let k = choose|k: int|
                        0 <= k < topic.spec_bytes().len() && topic.spec_bytes()[k] == 0;
                }
            }
        }
        Ok(
            ActionServer {
                handle: ActionServerHandle {
                    registry: GoalRegistry::new(),
                    in_use_by_wait_set: false,
                },
                topic: topic.to_owned(),
                retention,
            },
        )
    }

    /// Answer one taken send-goal request, given the user goal callback's
    /// decision for it. A rejected goal leaves no trace; an accepted one is
    /// registered (already executing when the decision says so), after which
    /// the caller sends the goal response, publishes the snapshot, and
    /// invokes the user's accepted callback, in that order. The middleware
    /// never accepts a goal id it already knows, so an accepting decision
    /// comes only for fresh ids.
    pub fn execute_goal_request(
        &mut self,
        request: RequestId,
        uuid: GoalUuid,
        goal: Vec<u8>,
        decision: GoalResponse,
        now: u64,
    ) -> (actions: Vec<ServerAction>)
        requires
            old(self)@.wf(),
            decision != GoalResponse::Reject ==> !has_key(old(self)@.registry.handles, uuid),
        ensures
            final(self)@.wf(),
            final(self)@.retention == old(self)@.retention,
            final(self)@.registry == goal_request_registry(
                old(self)@.registry,
                uuid,
                goal@,
                decision,
                now,
            ),
            actions.deep_view() == goal_request_actions(
                final(self)@.registry,
                request,
                uuid,
                decision,
            ),
    {
        let ghost oldm = self@;
        let mut actions: Vec<ServerAction> = Vec::new();
        if matches!(decision, GoalResponse::Reject) {
            actions.push(ServerAction::SendGoalResponse { request, accepted: false });
            proof {
                assert(actions.deep_view() =~= goal_request_actions(
                    self@.registry,
                    request,
                    uuid,
                    decision,
                ));
            }
            return actions;
        }
        let ghost g = goal@;
        let mut h = ServerGoalHandle::new(uuid, goal, now);
        if matches!(decision, GoalResponse::AcceptAndExecute) {
            let transitioned = h.execute();
            proof {
                assert(transitioned is Ok);
            }
        }
        proof {
            assert(h@ == (HandleModel {
                uuid,
                goal: g,
                status: initial_status(decision),
                stamp: now,
            }));
        }
        self.handle.registry.insert(h);
        proof {
            assert(!has_key(oldm.registry.results, uuid)) by {
                if has_key(oldm.registry.results, uuid) {
                    lemma_index_of_key(oldm.registry.results, uuid);
                }
            }
            let newh = self@.registry.handles;
            assert forall|i: int|
                0 <= i < newh.len() implies ((#[trigger] newh[i]).status.is_terminal() <==> has_key(
                self@.registry.results,
                newh[i].uuid,
            )) by {
                if i < oldm.registry.handles.len() {
                    assert(newh[i] == oldm.registry.handles[i]);
                } else {
                    assert(newh[i].uuid == uuid);
                }
            }
        }
        actions.push(ServerAction::SendGoalResponse { request, accepted: true });
        let entries = self.publish_status();
        actions.push(ServerAction::PublishStatus { entries });
        actions.push(ServerAction::InvokeAcceptedCallback { uuid });
        proof {
            assert(actions.deep_view() =~= goal_request_actions(
                self@.registry,
                request,
                uuid,
                decision,
            ));
        }
        actions
    }

    /// Answer one taken get-result request. A request for an unknown goal is
    /// answered at once with the reserved status code 0 and a default
    /// (empty) payload; one for a terminated goal with the cached result;
    /// any other request is queued until the goal terminates.
    pub fn execute_result_request(&mut self, request: RequestId, uuid: GoalUuid) -> (actions: Vec<
        ServerAction,
    >)
        requires
            old(self)@.wf(),
        ensures
            final(self)@.wf(),
            final(self)@.retention == old(self)@.retention,
            final(self)@.registry == result_request_registry(old(self)@.registry, request, uuid),
            actions.deep_view() == result_request_actions(old(self)@.registry, request, uuid),
    {
        let ghost oldm = self@;
        let mut actions: Vec<ServerAction> = Vec::new();
        let known_status: Option<u8> = match self.handle.registry.get(uuid) {
            Some(h) => Some(h.status.code()),
            None => None,
        };
        match known_status {
            None => {
                actions.push(
                    ServerAction::SendResultResponse {
                        request,
                        response: ResultResponseMsg { status: 0, result: Vec::new() },
                    },
                );
                proof {
                    assert(actions.deep_view() =~= result_request_actions(
                        oldm.registry,
                        request,
                        uuid,
                    ));
                }
            },
            Some(code) => {
                match self.handle.registry.enqueue_result_request(uuid, request) {
                    Some(bytes) => {
                        actions.push(
                            ServerAction::SendResultResponse {
                                request,
                                response: ResultResponseMsg { status: code, result: bytes },
                            },
                        );
                        proof {
                            assert(actions.deep_view() =~= result_request_actions(
                                oldm.registry,
                                request,
                                uuid,
                            ));
                        }
                    },
                    None => {
                        proof {
                            assert(actions.deep_view() =~= result_request_actions(
                                oldm.registry,
                                request,
                                uuid,
                            ));
                        }
                    },
                }
            },
        }
        proof {
            let newr = self@.registry;
            assert(newr.handles == oldm.registry.handles);
            assert(newr.results == oldm.registry.results);
            assert forall|i: int|
                0 <= i < newr.handles.len() implies ((#[trigger] newr.handles[i]).status.is_terminal()
                <==> has_key(newr.results, newr.handles[i].uuid)) by {}
        }
        actions
    }

    /// Expire terminated goals whose retention window has elapsed at `now`.
    /// Expiration is the sole path by which goals leave the registry; it
    /// emits nothing.
    pub fn execute_goal_expired(&mut self, now: u64) -> (actions: Vec<ServerAction>)
        requires
            old(self)@.wf(),
        ensures
            final(self)@.wf(),
            final(self)@.retention == old(self)@.retention,
            final(self)@.registry == sweep_model(old(self)@.registry, now, old(self)@.retention),
            actions.deep_view() == Seq::<ActionModel>::empty(),
    {
        let ghost oldm = self@;
        self.handle.registry.sweep_expired(now, self.retention);
        proof {
            lemma_sweep_preserves_completeness(oldm, now);
        }
        let actions: Vec<ServerAction> = Vec::new();
        proof {
            assert(actions.deep_view() =~= Seq::<ActionModel>::empty());
        }
        actions
    }

    /// Drive one goal to a terminal state: advance the state machine, cache
    /// the result, and build the emission list — the status snapshot first,
    /// then one result response per request that was waiting.
    #[verifier::loop_isolation(false)]
    fn finish_goal(&mut self, uuid: GoalUuid, terminal: GoalStatus, result: Vec<u8>) -> (actions:
        Vec<ServerAction>)
        requires
            old(self)@.wf(),
            has_key(old(self)@.registry.handles, uuid),
            !entry_of(old(self)@.registry.handles, uuid).status.is_terminal(),
            terminal.is_terminal(),
        ensures
            final(self)@.wf(),
            final(self)@.retention == old(self)@.retention,
            final(self)@.registry == finish_registry(old(self)@.registry, uuid, terminal, result@),
            actions.deep_view() == finish_actions(
                old(self)@.registry,
                final(self)@.registry,
                uuid,
                terminal,
                result@,
            ),
    {
        let ghost oldm = self@;
        proof {
            assert(!has_key(oldm.registry.results, uuid)) by {
                if has_key(oldm.registry.results, uuid) {
                    lemma_index_of_key(oldm.registry.results, uuid);
                    lemma_key_at(oldm.registry.handles, index_of_key(oldm.registry.handles, uuid));
                }
            }
        }
        self.handle.registry.set_status(uuid, terminal);
        proof {
            lemma_index_of_key(oldm.registry.handles, uuid);
            let newh = self@.registry.handles;
            let idx = index_of_key(oldm.registry.handles, uuid);
            assert(newh[idx].key() == uuid);
            lemma_key_at(newh, idx);
            assert(entry_of(newh, uuid).status == terminal);
        }
        let ghost midm = self@;
        let result_bytes = copy_bytes(&result);
        let drained = self.handle.registry.terminate(uuid, result);
        proof {
            // the handle stores are untouched by `terminate`, so the server
            // invariant only needs the new result entry matched to `uuid`
            let newr = self@.registry;
            assert(newr.handles == midm.registry.handles);
            crate::registry::lemma_push_preserves(
                midm.registry.results,
                ResultModel { uuid, result: result_bytes@ },
                uuid,
            );
            assert forall|i: int|
                0 <= i < newr.handles.len() implies ((#[trigger] newr.handles[i]).status.is_terminal()
                <==> has_key(newr.results, newr.handles[i].uuid)) by {
                let idx = index_of_key(oldm.registry.handles, uuid);
                lemma_index_of_key(oldm.registry.handles, uuid);
                if i == idx {
                    assert(newr.handles[i].uuid == uuid);
                } else {
                    assert(newr.handles[i] == oldm.registry.handles[i]);
                    assert(oldm.registry.handles[i].status.is_terminal() <==> has_key(
                        oldm.registry.results,
                        oldm.registry.handles[i].uuid,
                    ));
                    lemma_key_at(oldm.registry.handles, i);
                    lemma_key_at(oldm.registry.handles, idx);
                    assert(newr.handles[i].uuid != uuid);
                    crate::registry::lemma_push_preserves(
                        midm.registry.results,
                        ResultModel { uuid, result: result_bytes@ },
                        newr.handles[i].uuid,
                    );
                }
            }
            assert(final(self)@.registry == finish_registry(
                oldm.registry,
                uuid,
                terminal,
                result_bytes@,
            ));
        }
        let mut actions: Vec<ServerAction> = Vec::new();
        let entries = self.publish_status();
        actions.push(ServerAction::PublishStatus { entries });
        proof {
            assert(actions.deep_view() =~= seq![
                ActionModel::PublishStatus { entries: snapshot_of(self@.registry.handles) },
            ] + response_list(drained@.subrange(0, 0), terminal, result_bytes@));
        }
        let n = drained.len();
        let mut k: usize = 0;
        while k < n
            invariant
                0 <= k <= n,
                n == drained@.len(),
                actions.deep_view() == seq![
                    ActionModel::PublishStatus { entries: snapshot_of(self@.registry.handles) },
                ] + response_list(drained@.subrange(0, k as int), terminal, result_bytes@),
            decreases n - k,
        {
            let payload = copy_bytes(&result_bytes);
            let act = ServerAction::SendResultResponse {
                request: drained[k],
                response: ResultResponseMsg { status: terminal.code(), result: payload },
            };
            let ghost actm = act@;
            let ghost acts_before = actions.deep_view();
            proof {
                assert(actm == ActionModel::SendResultResponse {
                    request: drained@[k as int],
                    response: ResultResponseModel {
                        status: terminal.spec_code(),
                        result: result_bytes@,
                    },
                });
            }
            actions.push(act);
            proof {
                assert(actions.deep_view() =~= acts_before.push(actm));
                assert(drained@.subrange(0, k + 1 as int) =~= drained@.subrange(0, k as int).push(
                    drained@[k as int],
                ));
                assert(response_list(drained@.subrange(0, k + 1 as int), terminal, result_bytes@)
                    =~= response_list(drained@.subrange(0, k as int), terminal, result_bytes@).push(
                    ActionModel::SendResultResponse {
                        request: drained@[k as int],
                        response: ResultResponseModel {
                            status: terminal.spec_code(),
                            result: result_bytes@,
                        },
                    },
                ));
                assert(actions.deep_view() =~= seq![
                    ActionModel::PublishStatus { entries: snapshot_of(self@.registry.handles) },
                ] + response_list(drained@.subrange(0, k + 1 as int), terminal, result_bytes@));
            }
            k += 1;
        }
        proof {
            assert(drained@.subrange(0, n as int) =~= drained@);
            assert(actions.deep_view() =~= finish_actions(
                oldm.registry,
                self@.registry,
                uuid,
                terminal,
                result_bytes@,
            ));
        }
        actions
    }

    /// Begin executing a deferred goal. Permitted exactly from `Accepted`;
    /// the new state is announced with a status snapshot.
    pub fn execute_goal(&mut self, uuid: GoalUuid) -> (r: Result<
        Vec<ServerAction>,
        ActionServerError,
    >)
        requires
            old(self)@.wf(),
        ensures
            final(self)@.wf(),
            final(self)@.retention == old(self)@.retention,
            !has_key(old(self)@.registry.handles, uuid) ==> r == Err::<
                Vec<ServerAction>,
                ActionServerError,
            >(ActionServerError::UnknownGoal) && final(self)@ == old(self)@,
            has_key(old(self)@.registry.handles, uuid) && entry_of(
                old(self)@.registry.handles,
                uuid,
            ).status != GoalStatus::Accepted ==> r == Err::<Vec<ServerAction>, ActionServerError>(
                ActionServerError::InvalidTransition,
            ) && final(self)@ == old(self)@,
            has_key(old(self)@.registry.handles, uuid) && entry_of(
                old(self)@.registry.handles,
                uuid,
            ).status == GoalStatus::Accepted ==> r is Ok && final(self)@.registry
                == execute_goal_registry(old(self)@.registry, uuid) && (r matches Ok(actions)
                ==> actions.deep_view() == seq![
                ActionModel::PublishStatus { entries: snapshot_of(final(self)@.registry.handles) },
            ]),
    {
        let ghost oldm = self@;
        let status = match self.handle.registry.get(uuid) {
            Some(h) => h.status,
            None => {
                return Err(ActionServerError::UnknownGoal);
            },
        };
        if !matches!(status, GoalStatus::Accepted) {
            return Err(ActionServerError::InvalidTransition);
        }
        self.handle.registry.set_status(uuid, GoalStatus::Executing);
        proof {
            lemma_update_status_completeness(oldm, self@.registry, uuid, GoalStatus::Executing);
        }
        let mut actions: Vec<ServerAction> = Vec::new();
        let entries = self.publish_status();
        actions.push(ServerAction::PublishStatus { entries });
        proof {
            assert(actions.deep_view() =~= seq![
                ActionModel::PublishStatus { entries: snapshot_of(self@.registry.handles) },
            ]);
        }
        Ok(actions)
    }

    /// End a goal successfully. Permitted from any active state; the
    /// terminal snapshot is published before the waiting result responses
    /// are sent.
    pub fn succeed_goal(&mut self, uuid: GoalUuid, result: Vec<u8>) -> (r: Result<
        Vec<ServerAction>,
        ActionServerError,
    >)
        requires
            old(self)@.wf(),
        ensures
            final(self)@.wf(),
            final(self)@.retention == old(self)@.retention,
            !has_key(old(self)@.registry.handles, uuid) ==> r == Err::<
                Vec<ServerAction>,
                ActionServerError,
            >(ActionServerError::UnknownGoal) && final(self)@ == old(self)@,
            has_key(old(self)@.registry.handles, uuid) && !entry_of(
                old(self)@.registry.handles,
                uuid,
            ).status.is_active() ==> r == Err::<Vec<ServerAction>, ActionServerError>(
                ActionServerError::InvalidTransition,
            ) && final(self)@ == old(self)@,
            has_key(old(self)@.registry.handles, uuid) && entry_of(
                old(self)@.registry.handles,
                uuid,
            ).status.is_active() ==> r is Ok && final(self)@.registry == finish_registry(
                old(self)@.registry,
                uuid,
                GoalStatus::Succeeded,
                result@,
            ) && (r matches Ok(actions) ==> actions.deep_view() == finish_actions(
                old(self)@.registry,
                final(self)@.registry,
                uuid,
                GoalStatus::Succeeded,
                result@,
            )),
    {
        let status = match self.handle.registry.get(uuid) {
            Some(h) => h.status,
            None => {
                return Err(ActionServerError::UnknownGoal);
            },
        };
        if !matches!(status, GoalStatus::Accepted | GoalStatus::Executing | GoalStatus::Canceling) {
            return Err(ActionServerError::InvalidTransition);
        }
        Ok(self.finish_goal(uuid, GoalStatus::Succeeded, result))
    }

    /// End a goal as aborted. Permitted from any active state; the terminal
    /// snapshot is published before the waiting result responses are sent.
    pub fn abort_goal(&mut self, uuid: GoalUuid, result: Vec<u8>) -> (r: Result<
        Vec<ServerAction>,
        ActionServerError,
    >)
        requires
            old(self)@.wf(),
        ensures
            final(self)@.wf(),
            final(self)@.retention == old(self)@.retention,
            !has_key(old(self)@.registry.handles, uuid) ==> r == Err::<
                Vec<ServerAction>,
                ActionServerError,
            >(ActionServerError::UnknownGoal) && final(self)@ == old(self)@,
            has_key(old(self)@.registry.handles, uuid) && !entry_of(
                old(self)@.registry.handles,
                uuid,
            ).status.is_active() ==> r == Err::<Vec<ServerAction>, ActionServerError>(
                ActionServerError::InvalidTransition,
            ) && final(self)@ == old(self)@,
            has_key(old(self)@.registry.handles, uuid) && entry_of(
                old(self)@.registry.handles,
                uuid,
            ).status.is_active() ==> r is Ok && final(self)@.registry == finish_registry(
                old(self)@.registry,
                uuid,
                GoalStatus::Aborted,
                result@,
            ) && (r matches Ok(actions) ==> actions.deep_view() == finish_actions(
                old(self)@.registry,
                final(self)@.registry,
                uuid,
                GoalStatus::Aborted,
                result@,
            )),
    {
        let status = match self.handle.registry.get(uuid) {
            Some(h) => h.status,
            None => {
                return Err(ActionServerError::UnknownGoal);
            },
        };
        if !matches!(status, GoalStatus::Accepted | GoalStatus::Executing | GoalStatus::Canceling) {
            return Err(ActionServerError::InvalidTransition);
        }
        Ok(self.finish_goal(uuid, GoalStatus::Aborted, result))
    }

    /// End a goal as canceled. Permitted exactly from `Canceling`; the
    /// terminal snapshot is published before the waiting result responses
    /// are sent.
    pub fn canceled_goal(&mut self, uuid: GoalUuid, result: Vec<u8>) -> (r: Result<
        Vec<ServerAction>,
        ActionServerError,
    >)
        requires
            old(self)@.wf(),
        ensures
            final(self)@.wf(),
            final(self)@.retention == old(self)@.retention,
            !has_key(old(self)@.registry.handles, uuid) ==> r == Err::<
                Vec<ServerAction>,
                ActionServerError,
            >(ActionServerError::UnknownGoal) && final(self)@ == old(self)@,
            has_key(old(self)@.registry.handles, uuid) && entry_of(
                old(self)@.registry.handles,
                uuid,
            ).status != GoalStatus::Canceling ==> r == Err::<Vec<ServerAction>, ActionServerError>(
                ActionServerError::InvalidTransition,
            ) && final(self)@ == old(self)@,
            has_key(old(self)@.registry.handles, uuid) && entry_of(
                old(self)@.registry.handles,
                uuid,
            ).status == GoalStatus::Canceling ==> r is Ok && final(self)@.registry
                == finish_registry(
                old(self)@.registry,
                uuid,
                GoalStatus::Canceled,
                result@,
            ) && (r matches Ok(actions) ==> actions.deep_view() == finish_actions(
                old(self)@.registry,
                final(self)@.registry,
                uuid,
                GoalStatus::Canceled,
                result@,
            )),
    {
        let status = match self.handle.registry.get(uuid) {
            Some(h) => h.status,
            None => {
                return Err(ActionServerError::UnknownGoal);
            },
        };
        if !matches!(status, GoalStatus::Canceling) {
            return Err(ActionServerError::InvalidTransition);
        }
        Ok(self.finish_goal(uuid, GoalStatus::Canceled, result))
    }

    /// The feedback message to publish for one goal. Feedback is permitted
    /// only while the goal is active: once the state has advanced past the
    /// active states, feedback is refused.
    pub fn publish_feedback(&self, uuid: GoalUuid, feedback: Vec<u8>) -> (r: Result<
        FeedbackMsg,
        ActionServerError,
    >)
        requires
            self@.wf(),
        ensures
            !has_key(self@.registry.handles, uuid) ==> r == Err::<FeedbackMsg, ActionServerError>(
                ActionServerError::UnknownGoal,
            ),
            has_key(self@.registry.handles, uuid) && !entry_of(
                self@.registry.handles,
                uuid,
            ).status.is_active() ==> r == Err::<FeedbackMsg, ActionServerError>(
                ActionServerError::InvalidTransition,
            ),
            has_key(self@.registry.handles, uuid) && entry_of(
                self@.registry.handles,
                uuid,
            ).status.is_active() ==> r is Ok && (r matches Ok(m) ==> m@ == (FeedbackModel {
                uuid,
                feedback: feedback@,
            })),
    {
        let active = match self.handle.registry.get(uuid) {
            Some(h) => h.is_active(),
            None => {
                return Err(ActionServerError::UnknownGoal);
            },
        };
        if !active {
            return Err(ActionServerError::InvalidTransition);
        }
        Ok(FeedbackMsg { uuid, feedback })
    }

    /// The candidates a cancel request's filter selects, in registry order.
    /// The caller asks the user's cancel callback about exactly these goals
    /// and hands the decisions to [`execute_cancel_request`].
    ///
    /// [`execute_cancel_request`]: ActionServer::execute_cancel_request
    #[verifier::loop_isolation(false)]
    pub fn cancel_candidates(&self, filter: CancelRequestMsg) -> (c: Vec<GoalUuid>)
        requires
            self@.wf(),
        ensures
            c@ == cancel_candidates_model(self@.registry, filter),
    {
        let reg = self.handle.lock();
        let ghost pred = |h: HandleModel| h.status.is_cancelable() && cancel_matches(h, filter);
        if filter.goal_id.0 != 0 {
            match reg.get(filter.goal_id) {
                None => {
                    let c: Vec<GoalUuid> = Vec::new();
                    proof {
                        assert(c@ =~= cancel_candidates_model(self@.registry, filter));
                    }
                    return c;
                },
                Some(h) => {
                    if filter.stamp == 0 && !matches!(
                        h.status,
                        GoalStatus::Accepted | GoalStatus::Executing
                    ) {
                        let c: Vec<GoalUuid> = Vec::new();
                        proof {
                            assert(c@ =~= cancel_candidates_model(self@.registry, filter));
                        }
                        return c;
                    }
                },
            }
        }
        let n = reg.num_goals();
        let mut c: Vec<GoalUuid> = Vec::new();
        let mut i: usize = 0;
        while i < n
            invariant
                0 <= i <= n,
                c@ == keep(reg@.handles.subrange(0, i as int), pred).map_values(
                    |h: HandleModel| h.uuid,
                ),
            decreases n - i,
        {
            let e = reg.status_entry_at(i);
            let cancelable = matches!(e.status, GoalStatus::Accepted | GoalStatus::Executing);
            let selected = (filter.goal_id.0 == 0 && filter.stamp == 0) || (filter.stamp != 0
                && e.stamp <= filter.stamp) || (filter.goal_id.0 != 0 && e.uuid == filter.goal_id);
            let ghost hm = reg@.handles[i as int];
            proof {
                assert((cancelable && selected) == pred(hm));
            }
            if cancelable && selected {
                c.push(e.uuid);
            }
            proof {
                let prefix = reg@.handles.subrange(0, i as int);
                assert(reg@.handles.subrange(0, i + 1 as int) =~= prefix.push(hm));
                crate::registry::lemma_keep_push(prefix, hm, pred);
                assert(c@ =~= keep(reg@.handles.subrange(0, i + 1 as int), pred).map_values(
                    |h: HandleModel| h.uuid,
                ));
            }
            i += 1;
        }
        proof {
            assert(reg@.handles.subrange(0, n as int) =~= reg@.handles);
            assert(c@ =~= cancel_candidates_model(self@.registry, filter));
        }
        c
    }

    /// Run the cancellation protocol for one taken cancel request, given
    /// the user cancel callback's decision for each candidate (as produced
    /// by [`cancel_candidates`], and ignored for goals the callback was not
    /// asked about). The accepted candidates move to `Canceling`; the
    /// response lists them compacted at the front, and when any state
    /// changed, a status snapshot is published before the response is sent.
    ///
    /// [`cancel_candidates`]: ActionServer::cancel_candidates
    #[verifier::loop_isolation(false)]
    pub fn execute_cancel_request(
        &mut self,
        request: RequestId,
        filter: CancelRequestMsg,
        decisions: &Vec<CancelResponse>,
    ) -> (actions: Vec<ServerAction>)
        requires
            old(self)@.wf(),
            decisions@.len() == cancel_candidates_model(old(self)@.registry, filter).len(),
        ensures
            final(self)@.wf(),
            final(self)@.retention == old(self)@.retention,
            ({
                let cands = cancel_candidates_model(old(self)@.registry, filter);
                let acc = accepted_uuids(cands, decisions@);
                &&& final(self)@.registry == cancel_registry(old(self)@.registry, acc)
                &&& actions.deep_view() == cancel_actions(
                    final(self)@.registry,
                    request,
                    CancelResponseModel {
                        return_code: cancel_return_code(
                            old(self)@.registry,
                            filter,
                            cands.len() as int,
                            acc.len() as int,
                        ),
                        goals_canceling: canceling_infos(old(self)@.registry, acc),
                    },
                )
            }),
    {
        let ghost oldm = self@;
        let candidates = self.cancel_candidates(filter);
        let ghost cands = candidates@;
        proof {
            lemma_candidates(oldm.registry, filter);
            assert(self@.registry.handles =~= set_canceling(
                oldm.registry.handles,
                accepted_prefix(cands, decisions@, 0),
            ));
            assert(Seq::<GoalInfo>::empty() =~= canceling_infos(
                oldm.registry,
                accepted_prefix(cands, decisions@, 0),
            ));
        }
        let mut infos: Vec<GoalInfo> = Vec::new();
        let n = candidates.len();
        let mut i: usize = 0;
        while i < n
            invariant
                0 <= i <= n,
                n == cands.len(),
                self@.wf(),
                self@.retention == oldm.retention,
                self@.registry.results == oldm.registry.results,
                self@.registry.requests == oldm.registry.requests,
                self@.registry.handles == set_canceling(
                    oldm.registry.handles,
                    accepted_prefix(cands, decisions@, i as int),
                ),
                infos@ == canceling_infos(
                    oldm.registry,
                    accepted_prefix(cands, decisions@, i as int),
                ),
            decreases n - i,
        {
            let ghost prefix = accepted_prefix(cands, decisions@, i as int);
            let accept = matches!(decisions[i], CancelResponse::Accept);
            if accept {
                let u = candidates[i];
                proof {
                    lemma_accepted_prefix_membership(cands, decisions@, i as int);
                    assert(!prefix.contains(u));
                    lemma_set_canceling_entry(oldm.registry.handles, prefix, u);
                    assert(entry_of(self@.registry.handles, u) == entry_of(
                        oldm.registry.handles,
                        u,
                    ));
                }
                let (stamp, cancelable) = match self.handle.registry.get(u) {
                    Some(h) => (
                        h.stamp,
                        matches!(h.status, GoalStatus::Accepted | GoalStatus::Executing),
                    ),
                    None => (0, false),
                };
                proof {
                    assert(cancelable);
                }
                if cancelable {
                    let ghost mid = self@;
                    self.handle.registry.set_status(u, GoalStatus::Canceling);
                    infos.push(GoalInfo { uuid: u, stamp });
                    proof {
                        lemma_update_status_completeness(
                            mid,
                            self@.registry,
                            u,
                            GoalStatus::Canceling,
                        );
                        let newpref = accepted_prefix(cands, decisions@, i + 1 as int);
                        assert(newpref == prefix.push(u));
                        lemma_set_canceling_entry(oldm.registry.handles, prefix, u);
                        lemma_index_of_key(oldm.registry.handles, u);
                        let idx = index_of_key(oldm.registry.handles, u);
                        assert(index_of_key(mid.registry.handles, u) == idx);
                        assert forall|k: int|
                            0 <= k < self@.registry.handles.len() implies #[trigger] self@.registry.handles[k]
                            == set_canceling(oldm.registry.handles, newpref)[k] by {
                            lemma_push_contains(prefix, u, oldm.registry.handles[k].uuid);
                            if k == idx {
                                assert(self@.registry.handles[k] == entry_of(
                                    oldm.registry.handles,
                                    u,
                                ).with_status(GoalStatus::Canceling));
                            } else {
                                lemma_key_at(oldm.registry.handles, k);
                                lemma_key_at(oldm.registry.handles, idx);
                                assert(oldm.registry.handles[k].uuid != u);
                                assert(self@.registry.handles[k] == mid.registry.handles[k]);
                            }
                        }
                        assert(self@.registry.handles =~= set_canceling(
                            oldm.registry.handles,
                            newpref,
                        ));
                        assert(infos@ =~= canceling_infos(oldm.registry, newpref));
                    }
                }
            } else {
                proof {
                    assert(accepted_prefix(cands, decisions@, i + 1 as int) == prefix);
                }
            }
            i += 1;
        }
        proof {
            assert(accepted_prefix(cands, decisions@, n as int) == accepted_uuids(
                cands,
                decisions@,
            ));
        }
        let ghost acc = accepted_uuids(cands, decisions@);
        let code = if filter.goal_id.0 != 0 {
            match self.handle.registry.get(filter.goal_id) {
                None => {
                    proof {
                        lemma_set_canceling_entry(oldm.registry.handles, acc, filter.goal_id);
                    }
                    CancelReturnCode::UnknownGoalId
                },
                Some(h) => {
                    proof {
                        lemma_set_canceling_entry(oldm.registry.handles, acc, filter.goal_id);
                    }
                    let terminal = matches!(
                        h.status,
                        GoalStatus::Succeeded | GoalStatus::Canceled | GoalStatus::Aborted
                    );
                    if filter.stamp == 0 && terminal {
                        CancelReturnCode::GoalTerminated
                    } else if candidates.len() > 0 && infos.len() == 0 {
                        proof {
                            assert(!(filter.stamp == 0 && entry_of(
                                oldm.registry.handles,
                                filter.goal_id,
                            ).status.is_terminal()));
                        }
                        CancelReturnCode::Rejected
                    } else {
                        proof {
                            assert(!(filter.stamp == 0 && entry_of(
                                oldm.registry.handles,
                                filter.goal_id,
                            ).status.is_terminal()));
                        }
                        CancelReturnCode::Accepted
                    }
                },
            }
        } else if candidates.len() > 0 && infos.len() == 0 {
            CancelReturnCode::Rejected
        } else {
            CancelReturnCode::Accepted
        };
        proof {
            assert(code == cancel_return_code(
                oldm.registry,
                filter,
                cands.len() as int,
                acc.len() as int,
            ));
        }
        let any = infos.len() > 0;
        let response = CancelResponseMsg { return_code: code, goals_canceling: infos };
        let ghost respm = response@;
        let mut actions: Vec<ServerAction> = Vec::new();
        if any {
            let entries = self.publish_status();
            actions.push(ServerAction::PublishStatus { entries });
        }
        actions.push(ServerAction::SendCancelResponse { request, response });
        proof {
            assert(respm == (CancelResponseModel {
                return_code: cancel_return_code(
                    oldm.registry,
                    filter,
                    cands.len() as int,
                    acc.len() as int,
                ),
                goals_canceling: canceling_infos(oldm.registry, acc),
            }));
            assert(actions.deep_view() =~= cancel_actions(self@.registry, request, respm));
        }
        actions
    }

    /// The full status snapshot to publish on the status topic: every known
    /// goal's id, state and acceptance timestamp.
    pub fn publish_status(&self) -> (entries: Vec<StatusEntry>)
        ensures
            entries@ == snapshot_of(self@.registry.handles),
    {
        let reg = self.handle.lock();
        let n = reg.num_goals();
        let mut entries: Vec<StatusEntry> = Vec::new();
        let mut i: usize = 0;
        while i < n
            invariant
                n == reg@.handles.len(),
                reg@ == self@.registry,
                0 <= i <= n,
                entries@ == snapshot_of(reg@.handles.subrange(0, i as int)),
            decreases n - i,
        {
            let e = reg.status_entry_at(i);
            entries.push(e);
            proof {
                assert(reg@.handles.subrange(0, i + 1 as int) =~= reg@.handles.subrange(
                    0,
                    i as int,
                ).push(reg@.handles[i as int]));
                assert(entries@ =~= snapshot_of(reg@.handles.subrange(0, i + 1 as int)));
            }
            i += 1;
        }
        proof {
            assert(reg@.handles.subrange(0, n as int) =~= reg@.handles);
            assert(entries@ =~= snapshot_of(reg@.handles));
        }
        entries
    }
}

impl ActionServerBase for ActionServer {
    fn handle(&self) -> (r: &ActionServerHandle) {
        &self.handle
    }

    fn num_entities(&self) -> (r: WaitableNumEntities) {
        WaitableNumEntities {
            num_subscriptions: 0,
            num_guard_conditions: 0,
            num_timers: 1,
            num_clients: 0,
            num_services: 3,
        }
    }

    fn execute(&mut self, event: ReadyEvent, now: u64) -> (actions: Vec<ServerAction>) {
        match event {
            ReadyEvent::GoalRequest { request, uuid, goal, decision } => self.execute_goal_request(
                request,
                uuid,
                goal,
                decision,
                now,
            ),
            ReadyEvent::CancelRequest { request, filter, decisions } => self.execute_cancel_request(
                request,
                filter,
                &decisions,
            ),
            ReadyEvent::ResultRequest { request, uuid } => self.execute_result_request(
                request,
                uuid,
            ),
            ReadyEvent::GoalExpired => self.execute_goal_expired(now),
        }
    }
}

} // verus!
