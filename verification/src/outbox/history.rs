//! What a store knows after any calls of its operations.

use super::records::{
    InMemoryOutboxError, OutboxEnqueueResult, OutboxFailure, OutboxId, OutboxLease, OutboxRetry,
    OutboxSnapshot, OutboxWorkerId, RequestView,
};
use super::store::StoreView;
use super::{laws, store};
use crate::time::{Duration, SystemTime};
use vstd::prelude::*;

verus! {

/// A call of an operation of a store.
pub enum StoreCall {
    Enqueue { request: RequestView },
    Claim { worker: OutboxWorkerId, now: SystemTime, lease_for: Duration, limit: nat },
    Renew { id: OutboxId, lease: OutboxLease, until: SystemTime, now: SystemTime },
    Begin { id: OutboxId, lease: OutboxLease, now: SystemTime },
    Complete { id: OutboxId, lease: OutboxLease, now: SystemTime },
    Reschedule { id: OutboxId, lease: OutboxLease, retry: OutboxRetry, now: SystemTime },
    Fail { id: OutboxId, lease: OutboxLease, failure: OutboxFailure, now: SystemTime },
    FailNextComplete,
}

/// The store after a call.
pub open spec fn step(s: StoreView, call: StoreCall) -> StoreView {
    match call {
        StoreCall::Enqueue { request } => s.enqueue(request),
        StoreCall::Claim { worker, now, lease_for, limit } => s.claim(
            worker,
            now,
            lease_for,
            limit,
        ).0,
        StoreCall::Renew { id, lease, until, now } => s.renew(id, lease, until, now),
        StoreCall::Begin { id, lease, now } => s.begin(id, lease, now),
        StoreCall::Complete { id, lease, now } => s.complete(id, lease, now),
        StoreCall::Reschedule { id, lease, retry, now } => s.reschedule(id, lease, retry, now),
        StoreCall::Fail { id, lease, failure, now } => s.fail(id, lease, failure, now),
        StoreCall::FailNextComplete => StoreView { fail_next_complete: true, ..s },
    }
}

/// A new store after a sequence of calls.
pub open spec fn run(calls: Seq<StoreCall>) -> StoreView
    decreases calls.len(),
{
    if calls.len() == 0 {
        StoreView::empty()
    } else {
        step(run(calls.drop_last()), calls.last())
    }
}

/// Whether the call at `k` stored a request as `id` and said so.
pub open spec fn inserted_at(calls: Seq<StoreCall>, k: int, id: OutboxId) -> bool {
    0 <= k < calls.len() && (calls[k] matches StoreCall::Enqueue { request } && run(
        calls.take(k),
    ).enqueue_result(request) == Ok::<OutboxEnqueueResult, InMemoryOutboxError>(
        OutboxEnqueueResult::Inserted(id),
    ))
}

/// Whether a stored request is the one that was handed in, but for the moment
/// at which it becomes available.
pub open spec fn still(stored: RequestView, request: RequestView) -> bool {
    stored.idempotency_key == request.idempotency_key && store::agree(stored, request)
}

/// What holds of the record of an id.
spec fn known(calls: Seq<StoreCall>, id: OutboxId) -> bool {
    let s = run(calls);
    &&& id.value < s.records.len() <==> exists|k: int| #[trigger] inserted_at(calls, k, id)
    &&& forall|k: int| #[trigger]
        inserted_at(calls, k, id) ==> still(
            s.records[id.value as int].request,
            calls[k]->Enqueue_request,
        )
    &&& id.value < s.records.len() ==> s.records[id.value as int].attempt
        <= s.records[id.value as int].request.max_attempts@
}

// A call keeps the records there are, and counts no attempt too many.
proof fn lemma_step_keeps(s: StoreView, call: StoreCall, x: int)
    requires
        0 <= x < s.records.len(),
    ensures
        step(s, call).records.len() >= s.records.len(),
        still(step(s, call).records[x].request, s.records[x].request),
        s.records[x].attempt <= s.records[x].request.max_attempts@ ==> step(
            s,
            call,
        ).records[x].attempt <= step(s, call).records[x].request.max_attempts@,
{
    lemma_step_length(s, call);
    if let StoreCall::Claim { worker, now, lease_for, limit } = call {
        let expired = s.expire(now);
        let n = expired.records.len();
        store::lemma_due_in_range(expired.records, now, n);
        let order = store::due_order(expired.records, now, n);
        let until = now.plus_or_self(lease_for);
        laws::lemma_claim_all_attempts(expired, order, worker, until, limit, x);
        assert(expired.records[x].request == s.records[x].request);
    }
}

// Only storing a request makes a record.
proof fn lemma_step_length(s: StoreView, call: StoreCall)
    ensures
        step(s, call).records.len() == s.records.len() + (if call is Enqueue && !s.has_key(
            call->Enqueue_request.idempotency_key,
        ) {
            1int
        } else {
            0int
        }),
{
    if let StoreCall::Claim { worker, now, lease_for, limit } = call {
        let expired = s.expire(now);
        store::lemma_due_in_range(expired.records, now, expired.records.len());
        let order = store::due_order(expired.records, now, expired.records.len());
        lemma_claim_all_length(expired, order, worker, now.plus_or_self(lease_for), limit);
    }
}

proof fn lemma_claim_all_length(
    s: StoreView,
    order: Seq<int>,
    worker: OutboxWorkerId,
    until: SystemTime,
    limit: nat,
)
    requires
        forall|k: int| 0 <= k < order.len() ==> 0 <= #[trigger] order[k] < s.records.len(),
    ensures
        s.claim_all(order, worker, until, limit).0.records.len() == s.records.len(),
    decreases order.len(),
{
    if order.len() > 0 && limit > 0 {
        let i = order[0];
        let after = s.claim_one(i, worker, until);
        let rest = order.drop_first();
        assert forall|k: int| 0 <= k < rest.len() implies 0 <= #[trigger] rest[k]
            < after.records.len() by {
            assert(rest[k] == order[k + 1]);
        }
        if s.records[i].attempt >= s.records[i].request.max_attempts@ {
            lemma_claim_all_length(after, rest, worker, until, limit);
        } else {
            lemma_claim_all_length(after, rest, worker, until, (limit - 1) as nat);
        }
    }
}

proof fn lemma_known(calls: Seq<StoreCall>, id: OutboxId)
    requires
        calls.len() <= u64::MAX,
    ensures
        known(calls, id),
        run(calls).records.len() <= calls.len(),
    decreases calls.len(),
{
    if calls.len() > 0 {
        let before = calls.drop_last();
        let call = calls.last();
        let s = run(before);
        let end = run(calls);
        lemma_known(before, id);
        lemma_step_length(s, call);
        let last = calls.len() - 1;
        assert(calls.take(last) =~= before);
        assert forall|k: int| 0 <= k < last implies #[trigger] inserted_at(calls, k, id)
            == inserted_at(before, k, id) by {
            assert(calls.take(k) =~= before.take(k));
        }
        if id.value < s.records.len() {
            let k = choose|k: int| #[trigger] inserted_at(before, k, id);
            assert(inserted_at(calls, k, id));
            lemma_step_keeps(s, call, id.value as int);
        } else if id.value < end.records.len() {
            assert(inserted_at(calls, last, id));
        }
        assert forall|k: int| #[trigger] inserted_at(calls, k, id) implies still(
            end.records[id.value as int].request,
            calls[k]->Enqueue_request,
        ) && id.value < end.records.len() by {
            if k < last {
                assert(inserted_at(before, k, id));
            }
        }
    }
}

/// What the outbox gives back of what was put in: after any calls of its
/// operations, a store knows a record under an id exactly if a request was
/// stored as that id. The record shows that request's key, metadata, payload
/// version and number of attempts allowed, it shows a lease exactly while it
/// is claimed, and no more attempts have started than it allows. (The number
/// of calls fits the ids.)
pub proof fn law_a_record_shows_the_stored_request(
    calls: Seq<StoreCall>,
    id: OutboxId,
    found: Option<OutboxSnapshot>,
)
    requires
        calls.len() <= u64::MAX,
        run(calls).finds(id, found),
    ensures
        found is Some <==> exists|k: int| #[trigger] inserted_at(calls, k, id),
        found matches Some(s) ==> {
            &&& s.id == id
            &&& s.lease is Some <==> s.status is Claimed
            &&& s.attempt <= s.max_attempts@
            &&& forall|k: int| #[trigger]
                inserted_at(calls, k, id) ==> {
                    let request = calls[k]->Enqueue_request;
                    &&& s.idempotency_key@ == request.idempotency_key
                    &&& s.metadata == request.metadata
                    &&& s.payload_version == request.payload_version
                    &&& s.max_attempts == request.max_attempts
                }
        },
{
    lemma_known(calls, id);
}

} // verus!
