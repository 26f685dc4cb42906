//! The protocol-level guarantees of the server core, stated and proved over
//! the same models its operation contracts use.

use vstd::prelude::*;

use crate::handle::HandleModel;
use crate::registry::{
    entry_of, expired, has_key, keep, keys_unique, lemma_index_of_key, lemma_key_at,
    lemma_keep_all, lemma_keep_keyed, lemma_keep_membership, pending_of, sweep_model, Keyed,
    RegistryModel, ResultModel,
};
use crate::server::{
    accepted_prefix, accepted_uuids, cancel_candidates_model, cancel_registry, canceling_infos,
    finish_actions, finish_registry, goal_request_registry, response_list, result_request_actions,
    result_request_registry,
};
use crate::types::{
    ActionModel, CancelResponse, GoalResponse, GoalStatus, GoalUuid, RequestId,
    ResultResponseModel,
};

verus! {

/// Registered goals are counted exactly: under the registry invariant, the
/// number of handles equals the number of distinct goal ids known, so each
/// accepted, non-expired goal contributes exactly one handle.
pub proof fn lemma_handle_count_is_goal_count(r: RegistryModel)
    requires
        keys_unique(r.handles),
    ensures
        r.handles.map_values(|h: HandleModel| h.uuid).to_set().finite(),
        r.handles.map_values(|h: HandleModel| h.uuid).to_set().len() == r.handles.len(),
{
    let uuids = r.handles.map_values(|h: HandleModel| h.uuid);
    assert(uuids.no_duplicates()) by {
        assert forall|i: int, j: int|
            0 <= i < uuids.len() && 0 <= j < uuids.len() && i != j implies uuids[i] != uuids[j] by {
            if i < j {
                assert(r.handles[i].key() != r.handles[j].key());
            } else {
                assert(r.handles[j].key() != r.handles[i].key());
            }
        }
    }
    uuids.unique_seq_to_set();
}

/// Accepting a goal registers exactly that goal: the handle count grows by
/// one, the new id becomes known, and no other id's membership changes. A
/// rejected goal leaves the registry untouched.
pub proof fn lemma_goal_request_membership(
    r: RegistryModel,
    uuid: GoalUuid,
    goal: Seq<u8>,
    decision: GoalResponse,
    now: u64,
)
    requires
        keys_unique(r.handles),
        decision != GoalResponse::Reject ==> !has_key(r.handles, uuid),
    ensures
        decision == GoalResponse::Reject ==> goal_request_registry(r, uuid, goal, decision, now)
            == r,
        decision != GoalResponse::Reject ==> ({
            let t = goal_request_registry(r, uuid, goal, decision, now);
            &&& t.handles.len() == r.handles.len() + 1
            &&& has_key(t.handles, uuid)
            &&& forall|u: GoalUuid|
                u != uuid ==> (has_key(t.handles, u) <==> #[trigger] has_key(r.handles, u))
        }),
{
    if decision != GoalResponse::Reject {
        let t = goal_request_registry(r, uuid, goal, decision, now);
        let h = (HandleModel {
            uuid,
            goal,
            status: crate::server::initial_status(decision),
            stamp: now,
        });
        crate::registry::lemma_push_preserves(r.handles, h, uuid);
        assert forall|u: GoalUuid|
            u != uuid implies (has_key(t.handles, u) <==> #[trigger] has_key(r.handles, u)) by {
            crate::registry::lemma_push_preserves(r.handles, h, u);
        }
    }
}

/// Expiration reaps exactly the expired: after a sweep a goal is known
/// exactly when it was known and had not outlived its retention window, and
/// a surviving goal is unchanged.
pub proof fn lemma_sweep_exact(r: RegistryModel, now: u64, retention: u64, u: GoalUuid)
    requires
        keys_unique(r.handles),
    ensures
        has_key(sweep_model(r, now, retention).handles, u) <==> (has_key(r.handles, u) && !expired(
            entry_of(r.handles, u),
            now,
            retention,
        )),
        has_key(sweep_model(r, now, retention).handles, u) ==> entry_of(
            sweep_model(r, now, retention).handles,
            u,
        ) == entry_of(r.handles, u),
{
    let hpred = |h: HandleModel| !expired(h, now, retention);
    lemma_keep_keyed(r.handles, hpred, u);
}

/// Result delivery is exact. Queueing a get-result request before the goal
/// terminates appends it to the goal's queue; the terminal transition then
/// answers every queued request exactly once, each response carrying the
/// terminal status and the result bytes, after the status snapshot. A
/// request arriving after termination is answered immediately with the same
/// bytes.
pub proof fn lemma_result_delivery(
    r: RegistryModel,
    request: RequestId,
    uuid: GoalUuid,
    terminal: GoalStatus,
    result: Seq<u8>,
    late: RequestId,
)
    requires
        r.wf(),
        has_key(r.handles, uuid),
        !has_key(r.results, uuid),
        terminal.is_terminal(),
    ensures
        ({
            let enq = result_request_registry(r, request, uuid);
            let fin = finish_registry(enq, uuid, terminal, result);
            let acts = finish_actions(enq, fin, uuid, terminal, result);
            &&& pending_of(enq.requests, uuid) == pending_of(r.requests, uuid).push(request)
            &&& acts.len() == 1 + pending_of(enq.requests, uuid).len()
            &&& forall|k: int|
                0 <= k < pending_of(enq.requests, uuid).len() ==> acts[1 + k] == (
                ActionModel::SendResultResponse {
                    request: pending_of(enq.requests, uuid)[k],
                    response: ResultResponseModel { status: terminal.spec_code(), result },
                })
            &&& acts[acts.len() - 1] == (ActionModel::SendResultResponse {
                request,
                response: ResultResponseModel { status: terminal.spec_code(), result },
            })
            &&& result_request_actions(fin, late, uuid) == seq![
                ActionModel::SendResultResponse {
                    request: late,
                    response: ResultResponseModel { status: terminal.spec_code(), result },
                },
            ]
        }),
{
    let enq = result_request_registry(r, request, uuid);
    let fin = finish_registry(enq, uuid, terminal, result);
    let acts = finish_actions(enq, fin, uuid, terminal, result);
    if has_key(r.requests, uuid) {
        let i = crate::registry::index_of_key(r.requests, uuid);
        lemma_index_of_key(r.requests, uuid);
        assert(enq.requests[i].key() == uuid);
        lemma_key_at(enq.requests, i);
        assert(pending_of(enq.requests, uuid) == pending_of(r.requests, uuid).push(request));
    } else {
        let newq = (crate::registry::RequestQueueModel { uuid, requests: seq![request] });
        crate::registry::lemma_push_preserves(r.requests, newq, uuid);
        assert(pending_of(enq.requests, uuid) =~= pending_of(r.requests, uuid).push(request));
    }
    let pend = pending_of(enq.requests, uuid);
    assert(acts.len() == 1 + pend.len());
    assert(acts[acts.len() - 1] == response_list(pend, terminal, result)[pend.len() - 1]);
    // a late request finds the goal known, terminal, and its result cached
    let idx = crate::registry::index_of_key(enq.handles, uuid);
    lemma_index_of_key(enq.handles, uuid);
    assert(fin.handles[idx].key() == uuid);
    lemma_key_at(fin.handles, idx);
    assert(entry_of(fin.handles, uuid).status == terminal);
    crate::registry::lemma_push_preserves(enq.results, ResultModel { uuid, result }, uuid);
    assert(result_request_actions(fin, late, uuid) =~= seq![
        ActionModel::SendResultResponse {
            request: late,
            response: ResultResponseModel { status: terminal.spec_code(), result },
        },
    ]);
}

/// The number of decisions answered `Accept` among the first `n`.
pub open spec fn count_accepts(ds: Seq<CancelResponse>, n: int) -> int
    decreases n,
{
    if n <= 0 {
        0
    } else {
        count_accepts(ds, n - 1) + if ds[n - 1] == CancelResponse::Accept {
            1int
        } else {
            0int
        }
    }
}

/// The accepted candidates are exactly as many as the `Accept` decisions.
pub proof fn lemma_accepted_count(cands: Seq<GoalUuid>, ds: Seq<CancelResponse>, n: int)
    ensures
        accepted_prefix(cands, ds, n).len() == count_accepts(ds, n),
    decreases n,
{
    if n > 0 {
        lemma_accepted_count(cands, ds, n - 1);
    }
}

/// The cancel response is exact: its goal list is as long as the number of
/// user accepts, and every listed goal is still registered, now in
/// `Canceling`.
pub proof fn lemma_cancel_response(
    r: RegistryModel,
    filter: crate::types::CancelRequestMsg,
    ds: Seq<CancelResponse>,
)
    requires
        r.wf(),
        ds.len() == cancel_candidates_model(r, filter).len(),
    ensures
        ({
            let cands = cancel_candidates_model(r, filter);
            let acc = accepted_uuids(cands, ds);
            let t = cancel_registry(r, acc);
            &&& canceling_infos(r, acc).len() == count_accepts(ds, cands.len() as int)
            &&& forall|k: int|
                0 <= k < acc.len() ==> has_key(t.handles, #[trigger] acc[k]) && entry_of(
                    t.handles,
                    acc[k],
                ).status == GoalStatus::Canceling
        }),
{
    let cands = cancel_candidates_model(r, filter);
    let acc = accepted_uuids(cands, ds);
    let t = cancel_registry(r, acc);
    lemma_accepted_count(cands, ds, cands.len() as int);
    crate::server::lemma_candidates(r, filter);
    assert forall|k: int|
        0 <= k < acc.len() implies has_key(t.handles, #[trigger] acc[k]) && entry_of(
        t.handles,
        acc[k],
    ).status == GoalStatus::Canceling by {
        assert(acc.contains(acc[k]));
        crate::server::lemma_accepted_prefix_membership(cands, ds, cands.len() as int);
        let j = choose|j: int| 0 <= j < cands.len() && cands[j] == acc[k];
        crate::server::lemma_set_canceling_entry(r.handles, acc, acc[k]);
    }
}

/// A status publication strictly precedes the effects it announces: in a
/// terminal transition's emission list the snapshot comes first and every
/// later action is a result response; in a cancel request's list, when any
/// goal state changed, the snapshot precedes the cancel response.
pub proof fn lemma_status_precedes_effects(
    old_reg: RegistryModel,
    new_reg: RegistryModel,
    uuid: GoalUuid,
    terminal: GoalStatus,
    result: Seq<u8>,
    request: RequestId,
    response: crate::types::CancelResponseModel,
)
    ensures
        ({
            let acts = finish_actions(old_reg, new_reg, uuid, terminal, result);
            &&& acts.len() >= 1
            &&& acts[0] is PublishStatus
            &&& forall|k: int| 1 <= k < acts.len() ==> (#[trigger] acts[k]) is SendResultResponse
        }),
        response.goals_canceling.len() > 0 ==> ({
            let acts = crate::server::cancel_actions(new_reg, request, response);
            &&& acts.len() == 2
            &&& acts[0] is PublishStatus
            &&& acts[1] is SendCancelResponse
        }),
{
}

/// Expiration is idempotent: sweeping twice at one instant changes nothing
/// beyond the first sweep, and a sweep with nothing expired is a no-op.
pub proof fn lemma_expire_idempotent(r: RegistryModel, now: u64, retention: u64)
    requires
        r.wf(),
    ensures
        sweep_model(sweep_model(r, now, retention), now, retention) == sweep_model(
            r,
            now,
            retention,
        ),
        (forall|i: int| 0 <= i < r.handles.len() ==> !expired(#[trigger] r.handles[i], now, retention))
            ==> sweep_model(r, now, retention) == r,
{
    let hpred = |h: HandleModel| !expired(h, now, retention);
    let s = sweep_model(r, now, retention);
    let live = keep(r.handles, hpred);
    lemma_keep_membership(r.handles, hpred);
    assert(forall|i: int| 0 <= i < live.len() ==> hpred(#[trigger] live[i]));
    lemma_keep_all(live, hpred);
    assert(keep(s.handles, hpred) == s.handles);
    let rpred2 = |e: ResultModel| has_key(keep(s.handles, hpred), e.uuid);
    lemma_keep_membership(r.results, |e: ResultModel| has_key(live, e.uuid));
    assert(forall|i: int| 0 <= i < s.results.len() ==> rpred2(#[trigger] s.results[i]));
    lemma_keep_all(s.results, rpred2);
    let qpred2 = |q: crate::registry::RequestQueueModel| has_key(keep(s.handles, hpred), q.uuid);
    lemma_keep_membership(
        r.requests,
        |q: crate::registry::RequestQueueModel| has_key(live, q.uuid),
    );
    assert(forall|i: int| 0 <= i < s.requests.len() ==> qpred2(#[trigger] s.requests[i]));
    lemma_keep_all(s.requests, qpred2);
    assert(sweep_model(s, now, retention) == s);
    if forall|i: int| 0 <= i < r.handles.len() ==> !expired(#[trigger] r.handles[i], now, retention) {
        lemma_keep_all(r.handles, hpred);
        assert(s.handles == r.handles);
        let rpred = |e: ResultModel| has_key(live, e.uuid);
        assert(forall|i: int| 0 <= i < r.results.len() ==> rpred(#[trigger] r.results[i]));
        lemma_keep_all(r.results, rpred);
        let qpred = |q: crate::registry::RequestQueueModel| has_key(live, q.uuid);
        assert(forall|i: int| 0 <= i < r.requests.len() ==> qpred(#[trigger] r.requests[i]));
        lemma_keep_all(r.requests, qpred);
        assert(sweep_model(r, now, retention) == r);
    }
}

} // verus!
