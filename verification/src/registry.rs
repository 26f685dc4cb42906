//! Goal bookkeeping: the handles of every known goal, the cached results of
//! terminated goals, and the queued get-result requests that arrived before
//! their goal terminated. All three stores are keyed by the goal id, which
//! appears at most once in each.

use vstd::prelude::*;

use crate::handle::{HandleModel, ServerGoalHandle};
use crate::types::{GoalStatus, GoalUuid, RequestId, StatusEntry};

verus! {

/// A cached, serialized result message of one terminated goal.
pub struct ResultEntry {
    pub uuid: GoalUuid,
    pub result: Vec<u8>,
}

/// Mathematical image of [`ResultEntry`].
pub struct ResultModel {
    pub uuid: GoalUuid,
    pub result: Seq<u8>,
}

impl View for ResultEntry {
    type V = ResultModel;

    open spec fn view(&self) -> ResultModel {
        ResultModel { uuid: self.uuid, result: self.result@ }
    }
}

impl DeepView for ResultEntry {
    type V = ResultModel;

    open spec fn deep_view(&self) -> ResultModel {
        self.view()
    }
}

/// The client requests waiting for one goal's result.
pub struct RequestQueue {
    pub uuid: GoalUuid,
    pub requests: Vec<RequestId>,
}

/// Mathematical image of [`RequestQueue`].
pub struct RequestQueueModel {
    pub uuid: GoalUuid,
    pub requests: Seq<RequestId>,
}

impl View for RequestQueue {
    type V = RequestQueueModel;

    open spec fn view(&self) -> RequestQueueModel {
        RequestQueueModel { uuid: self.uuid, requests: self.requests@ }
    }
}

impl DeepView for RequestQueue {
    type V = RequestQueueModel;

    open spec fn deep_view(&self) -> RequestQueueModel {
        self.view()
    }
}

/// Anything the registry stores under a goal id.
pub trait Keyed {
    /// The goal id the entry is stored under.
    spec fn key(self) -> GoalUuid;
}

impl Keyed for HandleModel {
    open spec fn key(self) -> GoalUuid {
        self.uuid
    }
}

impl Keyed for ResultModel {
    open spec fn key(self) -> GoalUuid {
        self.uuid
    }
}

impl Keyed for RequestQueueModel {
    open spec fn key(self) -> GoalUuid {
        self.uuid
    }
}

/// Every key occurs at most once.
pub open spec fn keys_unique<T: Keyed>(s: Seq<T>) -> bool {
    forall|i: int, j: int|
        0 <= i < j < s.len() ==> (#[trigger] s[i]).key() != (#[trigger] s[j]).key()
}

/// Some entry carries this key.
pub open spec fn has_key<T: Keyed>(s: Seq<T>, u: GoalUuid) -> bool {
    exists|i: int| 0 <= i < s.len() && (#[trigger] s[i]).key() == u
}

/// The position of the entry carrying this key (meaningful under
/// [`keys_unique`] when [`has_key`] holds).
pub open spec fn index_of_key<T: Keyed>(s: Seq<T>, u: GoalUuid) -> int {
    choose|i: int| 0 <= i < s.len() && (#[trigger] s[i]).key() == u
}

/// The entry carrying this key.
pub open spec fn entry_of<T: Keyed>(s: Seq<T>, u: GoalUuid) -> T {
    s[index_of_key(s, u)]
}

/// The sequence with the entry of this key removed, if present.
pub open spec fn remove_key<T: Keyed>(s: Seq<T>, u: GoalUuid) -> Seq<T> {
    if has_key(s, u) {
        s.remove(index_of_key(s, u))
    } else {
        s
    }
}

/// The subsequence of entries satisfying `pred`, in order.
pub open spec fn keep<T>(s: Seq<T>, pred: spec_fn(T) -> bool) -> Seq<T>
    decreases s.len(),
{
    if s.len() == 0 {
        Seq::empty()
    } else if pred(s[0]) {
        seq![s[0]] + keep(s.drop_first(), pred)
    } else {
        keep(s.drop_first(), pred)
    }
}

/// Under unique keys, an entry found at a position is the entry of its key.
pub proof fn lemma_key_at<T: Keyed>(s: Seq<T>, i: int)
    requires
        keys_unique(s),
        0 <= i < s.len(),
    ensures
        has_key(s, s[i].key()),
        index_of_key(s, s[i].key()) == i,
        entry_of(s, s[i].key()) == s[i],
{
    assert(has_key(s, s[i].key()));
    let j = index_of_key(s, s[i].key());
    assert(0 <= j < s.len() && s[j].key() == s[i].key());
}

/// A present key's index is in range and carries the key.
pub proof fn lemma_index_of_key<T: Keyed>(s: Seq<T>, u: GoalUuid)
    requires
        has_key(s, u),
    ensures
        0 <= index_of_key(s, u) < s.len(),
        s[index_of_key(s, u)].key() == u,
        entry_of(s, u).key() == u,
{
    let i = choose|i: int| 0 <= i < s.len() && (#[trigger] s[i]).key() == u;
    assert(0 <= i < s.len() && s[i].key() == u);
}

/// Appending an entry extends [`keep`] at the back.
pub proof fn lemma_keep_push<T>(s: Seq<T>, x: T, pred: spec_fn(T) -> bool)
    ensures
        pred(x) ==> keep(s.push(x), pred) == keep(s, pred).push(x),
        !pred(x) ==> keep(s.push(x), pred) == keep(s, pred),
    decreases s.len(),
{
    if s.len() == 0 {
        assert(s.push(x)[0] == x);
        assert(s.push(x).drop_first() =~= Seq::<T>::empty());
        assert(keep(Seq::<T>::empty(), pred) =~= Seq::<T>::empty());
        assert(keep(s, pred) =~= Seq::<T>::empty());
        if pred(x) {
            assert(keep(s.push(x), pred) =~= seq![x] + Seq::<T>::empty());
            assert(keep(s.push(x), pred) =~= keep(s, pred).push(x));
        } else {
            assert(keep(s.push(x), pred) =~= keep(s, pred));
        }
    } else {
        assert(s.push(x).drop_first() =~= s.drop_first().push(x));
        lemma_keep_push(s.drop_first(), x, pred);
        assert(s.push(x)[0] == s[0]);
        if pred(x) {
            assert(keep(s.push(x), pred) =~= keep(s, pred).push(x));
        } else {
            assert(keep(s.push(x), pred) =~= keep(s, pred));
        }
    }
}

/// What [`keep`] retains: exactly the entries satisfying `pred`, in order,
/// and nothing else.
pub proof fn lemma_keep_membership<T>(s: Seq<T>, pred: spec_fn(T) -> bool)
    ensures
        forall|k: int|
            0 <= k < keep(s, pred).len() ==> pred(#[trigger] keep(s, pred)[k]) && s.contains(
                keep(s, pred)[k],
            ),
        forall|i: int| 0 <= i < s.len() && pred(#[trigger] s[i]) ==> keep(s, pred).contains(s[i]),
    decreases s.len(),
{
    if s.len() > 0 {
        lemma_keep_membership(s.drop_first(), pred);
        let rest = keep(s.drop_first(), pred);
        assert forall|k: int|
            0 <= k < keep(s, pred).len() implies pred(#[trigger] keep(s, pred)[k]) && s.contains(
            keep(s, pred)[k],
        ) by {
            if pred(s[0]) {
                if k == 0 {
                    assert(keep(s, pred)[0] == s[0]);
                } else {
                    assert(keep(s, pred)[k] == rest[k - 1]);
                    assert(s.contains(rest[k - 1])) by {
                        let m = choose|m: int|
                            0 <= m < s.drop_first().len() && s.drop_first()[m] == rest[k - 1];
                        assert(s[m + 1] == rest[k - 1]);
                    }
                }
            } else {
                assert(keep(s, pred)[k] == rest[k]);
                assert(s.contains(rest[k])) by {
                    let m = choose|m: int|
                        0 <= m < s.drop_first().len() && s.drop_first()[m] == rest[k];
                    assert(s[m + 1] == rest[k]);
                }
            }
        }
        assert forall|i: int|
            0 <= i < s.len() && pred(#[trigger] s[i]) implies keep(s, pred).contains(s[i]) by {
            if i == 0 {
                assert(keep(s, pred)[0] == s[0]);
            } else {
                assert(s.drop_first()[i - 1] == s[i]);
                assert(rest.contains(s[i]));
                let m = choose|m: int| 0 <= m < rest.len() && rest[m] == s[i];
                if pred(s[0]) {
                    assert(keep(s, pred)[m + 1] == s[i]);
                } else {
                    assert(keep(s, pred)[m] == s[i]);
                }
            }
        }
    }
}

/// [`keep`] leaves a sequence unchanged when every entry satisfies `pred`.
pub proof fn lemma_keep_all<T>(s: Seq<T>, pred: spec_fn(T) -> bool)
    requires
        forall|i: int| 0 <= i < s.len() ==> pred(#[trigger] s[i]),
    ensures
        keep(s, pred) == s,
    decreases s.len(),
{
    if s.len() == 0 {
        assert(keep(s, pred) =~= s);
    } else {
        assert(forall|i: int|
            0 <= i < s.drop_first().len() ==> pred(#[trigger] s.drop_first()[i]));
        lemma_keep_all(s.drop_first(), pred);
        assert(keep(s, pred) =~= s);
    }
}

/// Keyed facts about [`keep`]: keys stay unique, a key survives exactly when
/// its entry satisfies `pred`, and a surviving entry is unchanged.
pub proof fn lemma_keep_keyed<T: Keyed>(s: Seq<T>, pred: spec_fn(T) -> bool, u: GoalUuid)
    requires
        keys_unique(s),
    ensures
        keys_unique(keep(s, pred)),
        has_key(keep(s, pred), u) <==> (has_key(s, u) && pred(entry_of(s, u))),
        has_key(keep(s, pred), u) ==> entry_of(keep(s, pred), u) == entry_of(s, u),
{
    let t = keep(s, pred);
    lemma_keep_membership(s, pred);
    assert forall|i: int, j: int| 0 <= i < j < t.len() implies (#[trigger] t[i]).key() != (
    #[trigger] t[j]).key() by {
        let a = choose|a: int| 0 <= a < s.len() && s[a] == t[i];
        let b = choose|b: int| 0 <= b < s.len() && s[b] == t[j];
        if a != b {
            if a < b {
                assert(s[a].key() != s[b].key());
            } else {
                assert(s[b].key() != s[a].key());
            }
        } else {
            lemma_keep_distinct(s, pred, i, j);
        }
    }
    if has_key(t, u) {
        let i = index_of_key(t, u);
        assert(0 <= i < t.len() && t[i].key() == u);
        let a = choose|a: int| 0 <= a < s.len() && s[a] == t[i];
        lemma_key_at(s, a);
        assert(entry_of(s, u) == t[i] && pred(entry_of(s, u)));
        lemma_key_at(t, i);
    }
    if has_key(s, u) && pred(entry_of(s, u)) {
        lemma_index_of_key(s, u);
        assert(t.contains(entry_of(s, u)));
        let k = choose|k: int| 0 <= k < t.len() && t[k] == entry_of(s, u);
        assert(t[k].key() == u);
        assert(has_key(t, u));
    }
}

/// Distinct positions of [`keep`] come from distinct positions of the
/// original sequence.
proof fn lemma_keep_distinct<T>(s: Seq<T>, pred: spec_fn(T) -> bool, i: int, j: int)
    requires
        0 <= i < j < keep(s, pred).len(),
    ensures
        exists|a: int, b: int|
            0 <= a < b < s.len() && s[a] == keep(s, pred)[i] && s[b] == keep(s, pred)[j],
    decreases s.len(),
{
    let t = keep(s, pred);
    if pred(s[0]) {
        if i == 0 {
            lemma_keep_membership(s.drop_first(), pred);
            let rest = keep(s.drop_first(), pred);
            assert(t[j] == rest[j - 1]);
            let m = choose|m: int|
                0 <= m < s.drop_first().len() && s.drop_first()[m] == rest[j - 1];
            assert(s[0] == t[0] && s[m + 1] == t[j]);
            assert(0 <= 0 < m + 1 < s.len());
        } else {
            lemma_keep_distinct(s.drop_first(), pred, i - 1, j - 1);
            let (a, b) = choose|a: int, b: int|
                0 <= a < b < s.drop_first().len() && s.drop_first()[a] == keep(
                    s.drop_first(),
                    pred,
                )[i - 1] && s.drop_first()[b] == keep(s.drop_first(), pred)[j - 1];
            assert(s[a + 1] == t[i] && s[b + 1] == t[j]);
        }
    } else {
        lemma_keep_distinct(s.drop_first(), pred, i, j);
        let (a, b) = choose|a: int, b: int|
            0 <= a < b < s.drop_first().len() && s.drop_first()[a] == keep(s.drop_first(), pred)[i]
                && s.drop_first()[b] == keep(s.drop_first(), pred)[j];
        assert(s[a + 1] == t[i] && s[b + 1] == t[j]);
    }
}

/// Registry of every known goal: the live handles, the results of the
/// terminated ones, and the get-result requests awaiting a result.
pub struct GoalRegistry {
    handles: Vec<ServerGoalHandle>,
    results: Vec<ResultEntry>,
    requests: Vec<RequestQueue>,
}

/// Mathematical image of [`GoalRegistry`].
pub struct RegistryModel {
    pub handles: Seq<HandleModel>,
    pub results: Seq<ResultModel>,
    pub requests: Seq<RequestQueueModel>,
}

impl View for GoalRegistry {
    type V = RegistryModel;

    closed spec fn view(&self) -> RegistryModel {
        RegistryModel {
            handles: self.handles.deep_view(),
            results: self.results.deep_view(),
            requests: self.requests.deep_view(),
        }
    }
}

impl RegistryModel {
    /// The registry's invariant: a goal id appears at most once per store, a
    /// result is cached only for a known, terminal goal, and a request queue
    /// is non-empty and waits only for a known goal whose result is not yet
    /// cached.
    pub open spec fn wf(self) -> bool {
        &&& keys_unique(self.handles)
        &&& keys_unique(self.results)
        &&& keys_unique(self.requests)
        &&& forall|i: int|
            0 <= i < self.results.len() ==> has_key(self.handles, (#[trigger] self.results[i]).uuid)
                && entry_of(self.handles, self.results[i].uuid).status.is_terminal()
        &&& forall|i: int|
            0 <= i < self.requests.len() ==> (#[trigger] self.requests[i]).requests.len() > 0
                && has_key(self.handles, self.requests[i].uuid) && !has_key(
                self.results,
                self.requests[i].uuid,
            )
    }
}

impl GoalRegistry {
    /// An empty registry.
    pub fn new() -> (r: GoalRegistry)
        ensures
            r@.handles == Seq::<HandleModel>::empty(),
            r@.results == Seq::<ResultModel>::empty(),
            r@.requests == Seq::<RequestQueueModel>::empty(),
            r@.wf(),
    {
        let r = GoalRegistry { handles: Vec::new(), results: Vec::new(), requests: Vec::new() };
        proof {
            assert(r@.handles =~= Seq::<HandleModel>::empty());
            assert(r@.results =~= Seq::<ResultModel>::empty());
            assert(r@.requests =~= Seq::<RequestQueueModel>::empty());
        }
        r
    }

    /// How many goals the registry currently knows.
    pub fn num_goals(&self) -> (n: usize)
        ensures
            n == self@.handles.len(),
    {
        self.handles.len()
    }

    /// The status row of the goal at one registry position.
    pub fn status_entry_at(&self, i: usize) -> (e: StatusEntry)
        requires
            i < self@.handles.len(),
        ensures
            e == (StatusEntry {
                uuid: self@.handles[i as int].uuid,
                status: self@.handles[i as int].status,
                stamp: self@.handles[i as int].stamp,
            }),
    {
        let h = &self.handles[i];
        StatusEntry { uuid: h.uuid, status: h.status, stamp: h.stamp }
    }

    /// Advance one goal's state. A terminal state may only be replaced by a
    /// terminal state, so that cached results keep describing terminated
    /// goals.
    pub fn set_status(&mut self, uuid: GoalUuid, status: GoalStatus)
        requires
            old(self)@.wf(),
            has_key(old(self)@.handles, uuid),
            status.is_terminal() || !entry_of(old(self)@.handles, uuid).status.is_terminal(),
        ensures
            final(self)@.wf(),
            final(self)@.handles == old(self)@.handles.update(
                index_of_key(old(self)@.handles, uuid),
                entry_of(old(self)@.handles, uuid).with_status(status),
            ),
            final(self)@.results == old(self)@.results,
            final(self)@.requests == old(self)@.requests,
    {
        let ghost oldm = self@;
        let i = if let Some(i) = find_handle_in(&self.handles, uuid) {
            i
        } else {
            proof {
                assert(false);
            }
            0
        };
        proof {
            lemma_key_at(oldm.handles, i as int);
        }
        let mut h = self.handles.remove(i);
        h.status = status;
        self.handles.insert(i, h);
        proof {
            let ghost idx = i as int;
            assert(self@.handles =~= oldm.handles.update(
                idx,
                entry_of(oldm.handles, uuid).with_status(status),
            ));
            assert(self@.results =~= oldm.results);
            assert(self@.requests =~= oldm.requests);
            let newh = self@.handles;
            assert forall|a: int, b: int| 0 <= a < b < newh.len() implies (#[trigger] newh[a]).key()
                != (#[trigger] newh[b]).key() by {
                assert(newh[a].key() == oldm.handles[a].key());
                assert(newh[b].key() == oldm.handles[b].key());
            }
            assert forall|k: int|
                0 <= k < self@.results.len() implies has_key(
                self@.handles,
                (#[trigger] self@.results[k]).uuid,
            ) && entry_of(self@.handles, self@.results[k].uuid).status.is_terminal() by {
                let u2 = self@.results[k].uuid;
                let hi = index_of_key(oldm.handles, u2);
                lemma_index_of_key(oldm.handles, u2);
                assert(newh[hi].key() == u2);
                lemma_key_at(newh, hi);
                if hi == idx {
                    assert(u2 == uuid);
                    assert(entry_of(oldm.handles, uuid).status.is_terminal());
                    assert(status.is_terminal());
                } else {
                    assert(newh[hi] == oldm.handles[hi]);
                }
            }
            assert forall|k: int|
                0 <= k < self@.requests.len() implies (#[trigger] self@.requests[k]).requests.len()
                > 0 && has_key(self@.handles, self@.requests[k].uuid) && !has_key(
                self@.results,
                self@.requests[k].uuid,
            ) by {
                let u2 = self@.requests[k].uuid;
                let hi = index_of_key(oldm.handles, u2);
                lemma_index_of_key(oldm.handles, u2);
                assert(newh[hi].key() == u2);
                lemma_key_at(newh, hi);
            }
        }
    }

    /// Register a freshly accepted goal. A caller must never present a goal
    /// id that is already registered; the middleware rules out duplicates
    /// before a goal is accepted.
    pub fn insert(&mut self, h: ServerGoalHandle)
        requires
            old(self)@.wf(),
            !has_key(old(self)@.handles, h@.uuid),
        ensures
            final(self)@.wf(),
            final(self)@.handles == old(self)@.handles.push(h@),
            final(self)@.results == old(self)@.results,
            final(self)@.requests == old(self)@.requests,
    {
        let ghost oldm = self@;
        let ghost hm = h@;
        self.handles.push(h);
        proof {
            assert(self@.handles =~= oldm.handles.push(hm));
            assert(self@.results =~= oldm.results);
            assert(self@.requests =~= oldm.requests);
            lemma_push_preserves(oldm.handles, hm, hm.uuid);
            assert forall|i: int|
                0 <= i < self@.results.len() implies has_key(
                self@.handles,
                (#[trigger] self@.results[i]).uuid,
            ) && entry_of(self@.handles, self@.results[i].uuid).status.is_terminal() by {
                lemma_push_preserves(oldm.handles, hm, self@.results[i].uuid);
            }
            assert forall|i: int|
                0 <= i < self@.requests.len() implies (#[trigger] self@.requests[i]).requests.len()
                > 0 && has_key(self@.handles, self@.requests[i].uuid) && !has_key(
                self@.results,
                self@.requests[i].uuid,
            ) by {
                lemma_push_preserves(oldm.handles, hm, self@.requests[i].uuid);
            }
        }
    }

    /// Look a goal up by id.
    pub fn get(&self, uuid: GoalUuid) -> (r: Option<&ServerGoalHandle>)
        requires
            self@.wf(),
        ensures
            match r {
                Some(h) => has_key(self@.handles, uuid) && h@ == entry_of(self@.handles, uuid),
                None => !has_key(self@.handles, uuid),
            },
    {
        match find_handle_in(&self.handles, uuid) {
            Some(i) => {
                proof {
                    lemma_key_at(self@.handles, i as int);
                }
                Some(&self.handles[i])
            },
            None => None,
        }
    }

    /// Cache a terminated goal's result and hand back the queued get-result
    /// requests, which the caller must answer. The goal's state machine must
    /// already have reached its terminal state.
    pub fn terminate(&mut self, uuid: GoalUuid, result: Vec<u8>) -> (drained: Vec<RequestId>)
        requires
            old(self)@.wf(),
            has_key(old(self)@.handles, uuid),
            entry_of(old(self)@.handles, uuid).status.is_terminal(),
            !has_key(old(self)@.results, uuid),
        ensures
            final(self)@.wf(),
            final(self)@.handles == old(self)@.handles,
            final(self)@.results == old(self)@.results.push(
                ResultModel { uuid, result: result@ },
            ),
            final(self)@.requests == remove_key(old(self)@.requests, uuid),
            drained@ == pending_of(old(self)@.requests, uuid),
    {
        let ghost oldm = self@;
        let ghost newresult = (ResultModel { uuid, result: result@ });
        self.results.push(ResultEntry { uuid, result });
        let drained: Vec<RequestId> = match find_queue_in(&self.requests, uuid) {
            Some(i) => {
                proof {
                    lemma_key_at(oldm.requests, i as int);
                }
                let q = self.requests.remove(i);
                q.requests
            },
            None => Vec::new(),
        };
        proof {
            assert(self@.results =~= oldm.results.push(newresult));
            assert(self@.requests =~= remove_key(oldm.requests, uuid));
            assert(self@.handles =~= oldm.handles);
            lemma_push_preserves(oldm.results, newresult, uuid);
            lemma_remove_key(oldm.requests, uuid, uuid);
            assert forall|i: int|
                0 <= i < self@.results.len() implies has_key(
                self@.handles,
                (#[trigger] self@.results[i]).uuid,
            ) && entry_of(self@.handles, self@.results[i].uuid).status.is_terminal() by {
                if i < oldm.results.len() {
                    assert(self@.results[i] == oldm.results[i]);
                } else {
                    assert(self@.results[i] == newresult);
                }
            }
            assert forall|i: int|
                0 <= i < self@.requests.len() implies (#[trigger] self@.requests[i]).requests.len()
                > 0 && has_key(self@.handles, self@.requests[i].uuid) && !has_key(
                self@.results,
                self@.requests[i].uuid,
            ) by {
                assert(oldm.requests.contains(self@.requests[i]));
                let k = choose|k: int|
                    0 <= k < oldm.requests.len() && oldm.requests[k] == self@.requests[i];
                assert(oldm.requests[k].requests.len() > 0);
                lemma_key_at(self@.requests, i);
                lemma_remove_key(oldm.requests, uuid, self@.requests[i].uuid);
                assert(self@.requests[i].uuid != uuid);
                lemma_push_preserves(oldm.results, newresult, self@.requests[i].uuid);
            }
        }
        drained
    }

    /// Queue a get-result request, or hand back the cached result when the
    /// goal already terminated: the caller then answers at once.
    pub fn enqueue_result_request(&mut self, uuid: GoalUuid, req: RequestId) -> (r: Option<
        Vec<u8>,
    >)
        requires
            old(self)@.wf(),
            has_key(old(self)@.handles, uuid),
        ensures
            final(self)@.wf(),
            match r {
                Some(bytes) => has_key(old(self)@.results, uuid) && bytes@ == entry_of(
                    old(self)@.results,
                    uuid,
                ).result && final(self)@ == old(self)@,
                None => !has_key(old(self)@.results, uuid) && final(self)@.handles == old(
                    self,
                )@.handles && final(self)@.results == old(self)@.results && final(self)@.requests
                    == enqueue_model(old(self)@.requests, uuid, req),
            },
    {
        let ghost oldm = self@;
        if let Some(i) = find_result_in(&self.results, uuid) {
            proof {
                lemma_key_at(oldm.results, i as int);
            }
            return Some(copy_bytes(&self.results[i].result));
        }
        match find_queue_in(&self.requests, uuid) {
            Some(i) => {
                proof {
                    lemma_key_at(oldm.requests, i as int);
                }
                let mut q = self.requests.remove(i);
                q.requests.push(req);
                self.requests.insert(i, q);
                proof {
                    assert(self@.requests =~= enqueue_model(oldm.requests, uuid, req));
                }
            },
            None => {
                let mut queue: Vec<RequestId> = Vec::new();
                queue.push(req);
                self.requests.push(RequestQueue { uuid, requests: queue });
                proof {
                    assert(queue@ =~= seq![req]);
                    assert(self@.requests =~= enqueue_model(oldm.requests, uuid, req));
                }
            },
        }
        proof {
            assert(self@.handles =~= oldm.handles);
            assert(self@.results =~= oldm.results);
            let newreqs = self@.requests;
            if has_key(oldm.requests, uuid) {
                let i = index_of_key(oldm.requests, uuid);
                lemma_index_of_key(oldm.requests, uuid);
                assert forall|a: int, b: int|
                    0 <= a < b < newreqs.len() implies (#[trigger] newreqs[a]).key() != (
                #[trigger] newreqs[b]).key() by {
                    assert(newreqs[a].key() == oldm.requests[a].key());
                    assert(newreqs[b].key() == oldm.requests[b].key());
                }
                assert forall|k: int|
                    0 <= k < newreqs.len() implies (#[trigger] newreqs[k]).requests.len() > 0
                        && has_key(self@.handles, newreqs[k].uuid) && !has_key(
                    self@.results,
                    newreqs[k].uuid,
                ) by {
                    if k == i {
                        assert(newreqs[k].uuid == oldm.requests[k].uuid);
                    } else {
                        assert(newreqs[k] == oldm.requests[k]);
                    }
                }
            } else {
                let newq = (RequestQueueModel { uuid, requests: seq![req] });
                lemma_push_preserves(oldm.requests, newq, uuid);
                assert forall|k: int|
                    0 <= k < newreqs.len() implies (#[trigger] newreqs[k]).requests.len() > 0
                        && has_key(self@.handles, newreqs[k].uuid) && !has_key(
                    self@.results,
                    newreqs[k].uuid,
                ) by {
                    if k < oldm.requests.len() {
                        assert(newreqs[k] == oldm.requests[k]);
                    } else {
                        assert(newreqs[k] == newq);
                    }
                }
            }
        }
        None
    }

    /// Remove one goal from all three stores. Expiration is the only
    /// legitimate caller; user code never removes goals directly.
    pub fn remove(&mut self, uuid: GoalUuid)
        requires
            old(self)@.wf(),
        ensures
            final(self)@.wf(),
            final(self)@.handles == remove_key(old(self)@.handles, uuid),
            final(self)@.results == remove_key(old(self)@.results, uuid),
            final(self)@.requests == remove_key(old(self)@.requests, uuid),
    {
        let ghost oldm = self@;
        if let Some(i) = find_handle_in(&self.handles, uuid) {
            proof {
                lemma_key_at(oldm.handles, i as int);
            }
            self.handles.remove(i);
        }
        if let Some(i) = find_result_in(&self.results, uuid) {
            proof {
                lemma_key_at(oldm.results, i as int);
            }
            self.results.remove(i);
        }
        if let Some(i) = find_queue_in(&self.requests, uuid) {
            proof {
                lemma_key_at(oldm.requests, i as int);
            }
            self.requests.remove(i);
        }
        proof {
            assert(self@.handles =~= remove_key(oldm.handles, uuid));
            assert(self@.results =~= remove_key(oldm.results, uuid));
            assert(self@.requests =~= remove_key(oldm.requests, uuid));
            lemma_remove_key(oldm.handles, uuid, uuid);
            lemma_remove_key(oldm.results, uuid, uuid);
            lemma_remove_key(oldm.requests, uuid, uuid);
            assert forall|i: int|
                0 <= i < self@.results.len() implies has_key(
                self@.handles,
                (#[trigger] self@.results[i]).uuid,
            ) && entry_of(self@.handles, self@.results[i].uuid).status.is_terminal() by {
                assert(oldm.results.contains(self@.results[i]));
                let k = choose|k: int|
                    0 <= k < oldm.results.len() && oldm.results[k] == self@.results[i];
                lemma_key_at(self@.results, i);
                assert(self@.results[i].uuid != uuid);
                lemma_remove_key(oldm.handles, uuid, self@.results[i].uuid);
            }
            assert forall|i: int|
                0 <= i < self@.requests.len() implies (#[trigger] self@.requests[i]).requests.len()
                > 0 && has_key(self@.handles, self@.requests[i].uuid) && !has_key(
                self@.results,
                self@.requests[i].uuid,
            ) by {
                assert(oldm.requests.contains(self@.requests[i]));
                let k = choose|k: int|
                    0 <= k < oldm.requests.len() && oldm.requests[k] == self@.requests[i];
                lemma_key_at(self@.requests, i);
                assert(self@.requests[i].uuid != uuid);
                lemma_remove_key(oldm.handles, uuid, self@.requests[i].uuid);
                lemma_remove_key(oldm.results, uuid, self@.requests[i].uuid);
            }
        }
    }
}

/// The requests queued for one goal's result, or nothing when none wait.
pub open spec fn pending_of(s: Seq<RequestQueueModel>, u: GoalUuid) -> Seq<RequestId> {
    if has_key(s, u) {
        entry_of(s, u).requests
    } else {
        Seq::empty()
    }
}

/// The request stores after queueing one more request for this goal.
pub open spec fn enqueue_model(s: Seq<RequestQueueModel>, u: GoalUuid, r: RequestId) -> Seq<
    RequestQueueModel,
> {
    if has_key(s, u) {
        s.update(
            index_of_key(s, u),
            RequestQueueModel { uuid: u, requests: entry_of(s, u).requests.push(r) },
        )
    } else {
        s.push(RequestQueueModel { uuid: u, requests: seq![r] })
    }
}

/// A terminated goal has outlived its retention window.
pub open spec fn expired(h: HandleModel, now: u64, retention: u64) -> bool {
    h.status.is_terminal() && h.stamp + retention <= now
}

/// The registry after one expiration sweep: expired handles leave, and the
/// cached results and queued requests of departed goals leave with them.
pub open spec fn sweep_model(r: RegistryModel, now: u64, retention: u64) -> RegistryModel {
    let live = keep(r.handles, |h: HandleModel| !expired(h, now, retention));
    RegistryModel {
        handles: live,
        results: keep(r.results, |e: ResultModel| has_key(live, e.uuid)),
        requests: keep(r.requests, |q: RequestQueueModel| has_key(live, q.uuid)),
    }
}

/// Appending an entry with a fresh key keeps keys unique and leaves every
/// other key's entry in place.
pub proof fn lemma_push_preserves<T: Keyed>(s: Seq<T>, x: T, u: GoalUuid)
    requires
        keys_unique(s),
        !has_key(s, x.key()),
    ensures
        keys_unique(s.push(x)),
        u != x.key() ==> (has_key(s.push(x), u) <==> has_key(s, u)),
        has_key(s, u) && u != x.key() ==> entry_of(s.push(x), u) == entry_of(s, u),
        has_key(s.push(x), x.key()),
        entry_of(s.push(x), x.key()) == x,
{
    let t = s.push(x);
    assert(t[s.len() as int] == x);
    assert forall|i: int, j: int| 0 <= i < j < t.len() implies (#[trigger] t[i]).key() != (
    #[trigger] t[j]).key() by {
        if j < s.len() {
            assert(t[i] == s[i] && t[j] == s[j]);
        } else {
            assert(t[j] == x);
            assert(t[i] == s[i]);
            if s[i].key() == x.key() {
                assert(has_key(s, x.key()));
            }
        }
    }
    lemma_key_at(t, s.len() as int);
    if u != x.key() {
        if has_key(s, u) {
            let i = index_of_key(s, u);
            lemma_index_of_key(s, u);
            assert(t[i] == s[i]);
            lemma_key_at(t, i);
            lemma_key_at(s, i);
        }
        if has_key(t, u) {
            let i = index_of_key(t, u);
            lemma_index_of_key(t, u);
            if i < s.len() {
                assert(s[i] == t[i]);
                assert(has_key(s, u));
            } else {
                assert(t[i] == x);
            }
        }
    }
}

/// Removing one key keeps keys unique, drops exactly that key, and leaves
/// every other key's entry in place; every surviving entry comes from the
/// original sequence.
pub proof fn lemma_remove_key<T: Keyed>(s: Seq<T>, u: GoalUuid, u2: GoalUuid)
    requires
        keys_unique(s),
    ensures
        keys_unique(remove_key(s, u)),
        !has_key(remove_key(s, u), u),
        u2 != u ==> (has_key(remove_key(s, u), u2) <==> has_key(s, u2)),
        u2 != u && has_key(s, u2) ==> entry_of(remove_key(s, u), u2) == entry_of(s, u2),
        forall|k: int| 0 <= k < remove_key(s, u).len() ==> s.contains(#[trigger] remove_key(s, u)[k]),
{
    let t = remove_key(s, u);
    if has_key(s, u) {
        let r = index_of_key(s, u);
        lemma_index_of_key(s, u);
        assert(forall|k: int|
            0 <= k < t.len() ==> #[trigger] t[k] == (if k < r {
                s[k]
            } else {
                s[k + 1]
            }));
        assert forall|i: int, j: int| 0 <= i < j < t.len() implies (#[trigger] t[i]).key() != (
        #[trigger] t[j]).key() by {}
        assert forall|k: int| 0 <= k < t.len() implies (#[trigger] t[k]).key() != u by {
            if k < r {
                assert(t[k] == s[k]);
                lemma_key_at(s, k);
            } else {
                assert(t[k] == s[k + 1]);
                lemma_key_at(s, k + 1);
            }
        }
        if u2 != u {
            if has_key(s, u2) {
                let i = index_of_key(s, u2);
                lemma_index_of_key(s, u2);
                if i < r {
                    assert(t[i] == s[i]);
                    lemma_key_at(t, i);
                } else {
                    assert(i != r);
                    assert(t[i - 1] == s[i]);
                    lemma_key_at(t, i - 1);
                }
            }
            if has_key(t, u2) {
                let i = index_of_key(t, u2);
                lemma_index_of_key(t, u2);
                if i < r {
                    assert(s[i] == t[i]);
                    assert(has_key(s, u2));
                } else {
                    assert(s[i + 1] == t[i]);
                    assert(has_key(s, u2));
                }
            }
        }
        assert forall|k: int| 0 <= k < t.len() implies s.contains(#[trigger] t[k]) by {
            if k < r {
                assert(s[k] == t[k]);
            } else {
                assert(s[k + 1] == t[k]);
            }
        }
    }
}

/// Whether this goal has expired by `now`.
fn is_expired(h: &ServerGoalHandle, now: u64, retention: u64) -> (b: bool)
    ensures
        b == expired(h@, now, retention),
{
    let terminal = matches!(
        h.status,
        GoalStatus::Succeeded | GoalStatus::Canceled | GoalStatus::Aborted
    );
    terminal && now >= h.stamp && now - h.stamp >= retention
}

impl GoalRegistry {
    /// One expiration sweep: every terminated goal whose retention window
    /// has elapsed leaves the registry, together with its cached result and
    /// any queued requests.
    #[verifier::loop_isolation(false)]
    pub fn sweep_expired(&mut self, now: u64, retention: u64)
        requires
            old(self)@.wf(),
        ensures
            final(self)@.wf(),
            final(self)@ == sweep_model(old(self)@, now, retention),
    {
        let ghost oldm = self@;
        let ghost hpred = |h: HandleModel| !expired(h, now, retention);
        let mut i: usize = 0;
        let ghost mut j: int = 0;
        while i < self.handles.len()
            invariant
                self@.results == oldm.results,
                self@.requests == oldm.requests,
                0 <= j <= oldm.handles.len(),
                i as int == keep(oldm.handles.subrange(0, j), hpred).len(),
                self@.handles == keep(oldm.handles.subrange(0, j), hpred)
                    + oldm.handles.subrange(j, oldm.handles.len() as int),
            decreases oldm.handles.len() - j,
        {
            proof {
                assert(self.handles@[i as int]@ == self@.handles[i as int]);
                assert(self@.handles[i as int] == oldm.handles[j]);
            }
            let expired_now = is_expired(&self.handles[i], now, retention);
            let ghost before = self@.handles;
            if expired_now {
                self.handles.remove(i);
                proof {
                    assert(self@.handles =~= before.remove(i as int));
                }
            } else {
                i += 1;
            }
            proof {
                let prefix = oldm.handles.subrange(0, j);
                let x = oldm.handles[j];
                let rest_new = oldm.handles.subrange(j + 1, oldm.handles.len() as int);
                assert(oldm.handles.subrange(0, j + 1) =~= prefix.push(x));
                lemma_keep_push(prefix, x, hpred);
                assert(hpred(x) == !expired(x, now, retention));
                if expired_now {
                    assert(keep(prefix.push(x), hpred) == keep(prefix, hpred));
                    assert(self@.handles =~= keep(prefix, hpred) + rest_new);
                } else {
                    assert(keep(prefix.push(x), hpred) == keep(prefix, hpred).push(x));
                    assert(self@.handles =~= keep(prefix, hpred).push(x) + rest_new);
                }
                j = j + 1;
                assert(oldm.handles.subrange(0, j) == prefix.push(x));
                assert(keep(oldm.handles.subrange(0, j), hpred) == keep(prefix.push(x), hpred));
                assert(oldm.handles.subrange(j, oldm.handles.len() as int) == rest_new);
                assert(self@.handles =~= keep(oldm.handles.subrange(0, j), hpred)
                    + oldm.handles.subrange(j, oldm.handles.len() as int));
            }
        }
        proof {
            assert(oldm.handles.subrange(0, j) =~= oldm.handles);
            assert(oldm.handles.subrange(j, oldm.handles.len() as int)
                =~= Seq::<HandleModel>::empty());
            assert(self@.handles =~= keep(oldm.handles, hpred));
        }
        let ghost live = self@.handles;
        let ghost rpred = |e: ResultModel| has_key(live, e.uuid);
        let mut i: usize = 0;
        let ghost mut j: int = 0;
        while i < self.results.len()
            invariant
                self@.handles == live,
                self@.requests == oldm.requests,
                0 <= j <= oldm.results.len(),
                i as int == keep(oldm.results.subrange(0, j), rpred).len(),
                self@.results == keep(oldm.results.subrange(0, j), rpred)
                    + oldm.results.subrange(j, oldm.results.len() as int),
            decreases oldm.results.len() - j,
        {
            proof {
                assert(self.results@[i as int]@ == self@.results[i as int]);
                assert(self@.results[i as int] == oldm.results[j]);
            }
            let uuid = self.results[i].uuid;
            let keep_it = match find_handle_in(&self.handles, uuid) {
                Some(k) => {
                    proof {
                        assert((#[trigger] live[k as int]).key() == uuid);
                    }
                    true
                },
                None => false,
            };
            proof {
                assert(keep_it == rpred(oldm.results[j]));
            }
            let ghost before = self@.results;
            if keep_it {
                i += 1;
            } else {
                self.results.remove(i);
                proof {
                    assert(self@.results =~= before.remove(i as int));
                }
            }
            proof {
                let prefix = oldm.results.subrange(0, j);
                let x = oldm.results[j];
                let rest_new = oldm.results.subrange(j + 1, oldm.results.len() as int);
                assert(oldm.results.subrange(0, j + 1) =~= prefix.push(x));
                lemma_keep_push(prefix, x, rpred);
                if keep_it {
                    assert(self@.results =~= keep(prefix, rpred).push(x) + rest_new);
                } else {
                    assert(self@.results =~= keep(prefix, rpred) + rest_new);
                }
                j = j + 1;
                assert(self@.results =~= keep(oldm.results.subrange(0, j), rpred)
                    + oldm.results.subrange(j, oldm.results.len() as int));
            }
        }
        proof {
            assert(oldm.results.subrange(0, j) =~= oldm.results);
            assert(oldm.results.subrange(j, oldm.results.len() as int)
                =~= Seq::<ResultModel>::empty());
            assert(self@.results =~= keep(oldm.results, rpred));
        }
        let ghost qpred = |q: RequestQueueModel| has_key(live, q.uuid);
        let mut i: usize = 0;
        let ghost mut j: int = 0;
        while i < self.requests.len()
            invariant
                self@.handles == live,
                self@.results == keep(oldm.results, rpred),
                0 <= j <= oldm.requests.len(),
                i as int == keep(oldm.requests.subrange(0, j), qpred).len(),
                self@.requests == keep(oldm.requests.subrange(0, j), qpred)
                    + oldm.requests.subrange(j, oldm.requests.len() as int),
            decreases oldm.requests.len() - j,
        {
            proof {
                assert(self.requests@[i as int]@ == self@.requests[i as int]);
                assert(self@.requests[i as int] == oldm.requests[j]);
            }
            let uuid = self.requests[i].uuid;
            let keep_it = match find_handle_in(&self.handles, uuid) {
                Some(k) => {
                    proof {
                        assert((#[trigger] live[k as int]).key() == uuid);
                    }
                    true
                },
                None => false,
            };
            proof {
                assert(keep_it == qpred(oldm.requests[j]));
            }
            let ghost before = self@.requests;
            if keep_it {
                i += 1;
            } else {
                self.requests.remove(i);
                proof {
                    assert(self@.requests =~= before.remove(i as int));
                }
            }
            proof {
                let prefix = oldm.requests.subrange(0, j);
                let x = oldm.requests[j];
                let rest_new = oldm.requests.subrange(j + 1, oldm.requests.len() as int);
                assert(oldm.requests.subrange(0, j + 1) =~= prefix.push(x));
                lemma_keep_push(prefix, x, qpred);
                if keep_it {
                    assert(self@.requests =~= keep(prefix, qpred).push(x) + rest_new);
                } else {
                    assert(self@.requests =~= keep(prefix, qpred) + rest_new);
                }
                j = j + 1;
                assert(self@.requests =~= keep(oldm.requests.subrange(0, j), qpred)
                    + oldm.requests.subrange(j, oldm.requests.len() as int));
            }
        }
        proof {
            assert(oldm.requests.subrange(0, j) =~= oldm.requests);
            assert(oldm.requests.subrange(j, oldm.requests.len() as int)
                =~= Seq::<RequestQueueModel>::empty());
            assert(self@.requests =~= keep(oldm.requests, qpred));
            assert(self@ == sweep_model(oldm, now, retention));
            lemma_sweep_wf(oldm, now, retention);
        }
    }
}

/// An expiration sweep preserves the registry invariant.
pub proof fn lemma_sweep_wf(r: RegistryModel, now: u64, retention: u64)
    requires
        r.wf(),
    ensures
        sweep_model(r, now, retention).wf(),
{
    let s = sweep_model(r, now, retention);
    let hpred = |h: HandleModel| !expired(h, now, retention);
    let rpred = |e: ResultModel| has_key(s.handles, e.uuid);
    let qpred = |q: RequestQueueModel| has_key(s.handles, q.uuid);
    lemma_keep_keyed(r.handles, hpred, GoalUuid(0));
    lemma_keep_keyed(r.results, rpred, GoalUuid(0));
    lemma_keep_keyed(r.requests, qpred, GoalUuid(0));
    lemma_keep_membership(r.results, rpred);
    lemma_keep_membership(r.requests, qpred);
    assert forall|i: int|
        0 <= i < s.results.len() implies has_key(s.handles, (#[trigger] s.results[i]).uuid)
            && entry_of(s.handles, s.results[i].uuid).status.is_terminal() by {
        let e = s.results[i];
        assert(rpred(e));
        assert(r.results.contains(e));
        let k = choose|k: int| 0 <= k < r.results.len() && r.results[k] == e;
        lemma_keep_keyed(r.handles, hpred, e.uuid);
        assert(entry_of(s.handles, e.uuid) == entry_of(r.handles, e.uuid));
    }
    assert forall|i: int|
        0 <= i < s.requests.len() implies (#[trigger] s.requests[i]).requests.len() > 0 && has_key(
        s.handles,
        s.requests[i].uuid,
    ) && !has_key(s.results, s.requests[i].uuid) by {
        let q = s.requests[i];
        assert(qpred(q));
        assert(r.requests.contains(q));
        let k = choose|k: int| 0 <= k < r.requests.len() && r.requests[k] == q;
        assert(r.requests[k].requests.len() > 0);
        assert(!has_key(r.results, q.uuid));
        lemma_keep_keyed(r.results, rpred, q.uuid);
    }
}

/// Find the position of a goal id among the handles.
fn find_handle_in(handles: &Vec<ServerGoalHandle>, uuid: GoalUuid) -> (r: Option<usize>)
    ensures
        match r {
            Some(i) => 0 <= i < handles.deep_view().len() && handles.deep_view()[i as int].uuid
                == uuid,
            None => !has_key(handles.deep_view(), uuid),
        },
{
    let n = handles.len();
    let mut i: usize = 0;
    while i < n
        invariant
            n == handles.deep_view().len(),
            0 <= i <= n,
            forall|j: int| 0 <= j < i ==> (#[trigger] handles.deep_view()[j]).uuid != uuid,
        decreases n - i,
    {
        if handles[i].uuid == uuid {
            return Some(i);
        }
        i += 1;
    }
    proof {
        assert forall|j: int|
            0 <= j < handles.deep_view().len() implies (#[trigger] handles.deep_view()[j]).key()
            != uuid by {
            assert(handles.deep_view()[j].uuid != uuid);
        }
    }
    None
}

/// Find the position of a goal id among the cached results.
fn find_result_in(results: &Vec<ResultEntry>, uuid: GoalUuid) -> (r: Option<usize>)
    ensures
        match r {
            Some(i) => 0 <= i < results.deep_view().len() && results.deep_view()[i as int].uuid
                == uuid,
            None => !has_key(results.deep_view(), uuid),
        },
{
    let n = results.len();
    let mut i: usize = 0;
    while i < n
        invariant
            n == results.deep_view().len(),
            0 <= i <= n,
            forall|j: int| 0 <= j < i ==> (#[trigger] results.deep_view()[j]).uuid != uuid,
        decreases n - i,
    {
        if results[i].uuid == uuid {
            return Some(i);
        }
        i += 1;
    }
    proof {
        assert forall|j: int|
            0 <= j < results.deep_view().len() implies (#[trigger] results.deep_view()[j]).key()
            != uuid by {
            assert(results.deep_view()[j].uuid != uuid);
        }
    }
    None
}

/// Find the position of a goal id among the request queues.
fn find_queue_in(requests: &Vec<RequestQueue>, uuid: GoalUuid) -> (r: Option<usize>)
    ensures
        match r {
            Some(i) => 0 <= i < requests.deep_view().len() && requests.deep_view()[i as int].uuid
                == uuid,
            None => !has_key(requests.deep_view(), uuid),
        },
{
    let n = requests.len();
    let mut i: usize = 0;
    while i < n
        invariant
            n == requests.deep_view().len(),
            0 <= i <= n,
            forall|j: int| 0 <= j < i ==> (#[trigger] requests.deep_view()[j]).uuid != uuid,
        decreases n - i,
    {
        if requests[i].uuid == uuid {
            return Some(i);
        }
        i += 1;
    }
    proof {
        assert forall|j: int|
            0 <= j < requests.deep_view().len() implies (#[trigger] requests.deep_view()[j]).key()
            != uuid by {
            assert(requests.deep_view()[j].uuid != uuid);
        }
    }
    None
}

/// A fresh copy of a byte payload.
pub(crate) fn copy_bytes(src: &Vec<u8>) -> (out: Vec<u8>)
    ensures
        out@ == src@,
{
    let mut out: Vec<u8> = Vec::new();
    let n = src.len();
    let mut i: usize = 0;
    while i < n
        invariant
            n == src@.len(),
            0 <= i <= n,
            out@ == src@.subrange(0, i as int),
        decreases n - i,
    {
        out.push(src[i]);
        proof {
            assert(out@ =~= src@.subrange(0, i + 1 as int));
        }
        i += 1;
    }
    proof {
        assert(out@ =~= src@);
    }
    out
}

} // verus!
