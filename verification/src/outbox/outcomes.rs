//! What storing, claiming and delivering come to, said of the values that go
//! in and come out.

use super::laws;
use super::records::{
    ClaimedOutboxRequest, InMemoryOutboxError, NewOutboxRequest, OutboxAttemptStart,
    OutboxEnqueueResult, OutboxExecutionError, OutboxFailure, OutboxFailureKind, OutboxId,
    OutboxLease, OutboxRetry, OutboxSnapshot, OutboxStatus, OutboxWorkerId, RequestView,
    DEFAULT_ATTEMPTS,
};
use super::store::{InMemoryStatus, RecordView, StoreView};
use super::worker::{
    Delivery, DeliveryAction, DeliveryEvent, DeliveryPhase, OutboxWorkerSettings, StoreAction,
};
use super::{store, worker};
use crate::time::{Duration, SystemTime};
use crate::types::{OutboundAcquireError, OutboundCompletion};
use vstd::arithmetic::power2;
use vstd::prelude::*;

verus! {

// ---------- storing ----------

/// What a request under a key in use is told: the record of that key exists
/// already if and only if its payload, byte by byte, its payload version, its
/// metadata and its number of attempts are those of the request; else the
/// request conflicts with that record. Either way nothing is stored. When the
/// two become available plays no part.
pub proof fn law_a_key_in_use_answers_by_its_record(s: StoreView, request: RequestView, i: int)
    requires
        s.inv(),
        0 <= i < s.records.len() <= u64::MAX,
        s.records[i].request.idempotency_key == request.idempotency_key,
    ensures
        ({
            let stored = s.records[i].request;
            let told = s.enqueue_result(request);
            let same = {
                &&& stored.payload.len() == request.payload.len()
                &&& forall|b: int|
                    0 <= b < request.payload.len() ==> stored.payload[b] == request.payload[b]
                &&& stored.payload_version == request.payload_version
                &&& stored.metadata.scope == request.metadata.scope
                &&& stored.metadata.class == request.metadata.class
                &&& stored.metadata.priority == request.metadata.priority
                &&& stored.metadata.weight == request.metadata.weight
                &&& stored.max_attempts == request.max_attempts
            };
            &&& same <==> (told matches Ok(OutboxEnqueueResult::Existing(id)) && id.value == i)
            &&& !same <==> (told matches Err(InMemoryOutboxError::Conflict { id }) && id.value
                == i)
            &&& s.enqueue(request) == s
        }),
{
    let stored = s.records[i].request;
    assert(s.has_key(request.idempotency_key));
    let j = s.under_key(request.idempotency_key);
    assert(i == j) by {
        if i < j {
            assert(s.records[i].request.idempotency_key != s.records[j].request.idempotency_key);
        } else if j < i {
            assert(s.records[j].request.idempotency_key != s.records[i].request.idempotency_key);
        }
    }
    if stored.payload.len() == request.payload.len() && forall|b: int|
        0 <= b < request.payload.len() ==> stored.payload[b] == request.payload[b] {
        assert(stored.payload =~= request.payload);
    }
}

/// A request under a key that nobody used is stored as it is, behind all
/// others: pending, with no attempt started, never claimed and without a
/// failure.
pub proof fn law_a_new_key_is_stored_as_it_is(s: StoreView, request: RequestView)
    requires
        s.records.len() < u64::MAX,
        forall|i: int|
            0 <= i < s.records.len() ==> (#[trigger] s.records[i]).request.idempotency_key
                != request.idempotency_key,
    ensures
        ({
            let n = s.records.len() as int;
            let after = s.enqueue(request);
            &&& s.enqueue_result(request) matches Ok(OutboxEnqueueResult::Inserted(id)) && id.value
                == n
            &&& after.records.len() == n + 1
            &&& forall|i: int| 0 <= i < n ==> #[trigger] after.records[i] == s.records[i]
            &&& after.records[n].request == request
            &&& after.records[n].attempt == 0
            &&& after.records[n].claim_count == 0
            &&& after.records[n].status is Pending
            &&& after.records[n].last_failure is None
            &&& after.last_token == s.last_token
        }),
{
}

// ---------- leases ----------

/// Who may change a claimed record: exactly the holder of the lease that the
/// record is claimed under, worker, token and end alike, and only before that
/// end. Everybody else is told that the lease does not match, or that there is
/// no such record.
pub proof fn law_only_the_running_lease_may_change_a_record(
    s: StoreView,
    id: OutboxId,
    lease: OutboxLease,
    now: SystemTime,
)
    ensures
        s.refusal(id, lease, now) is None <==> id.value < s.records.len() && (
        s.records[id.value as int].status matches InMemoryStatus::Claimed(held) && held.worker
            == lease.worker && held.token == lease.token && held.until == lease.until
            && now.nanos < lease.until.nanos),
        s.refusal(id, lease, now) matches Some(InMemoryOutboxError::NotFound { id: told }) <==> {
            &&& id.value >= s.records.len()
            &&& s.refusal(id, lease, now) == Some(InMemoryOutboxError::NotFound { id })
        },
        id.value < s.records.len() && s.refusal(id, lease, now) is Some ==> s.refusal(
            id,
            lease,
            now,
        ) == Some(InMemoryOutboxError::LeaseMismatch { id }),
{
}

/// What the holder of a running lease does to its record, and to no other: a
/// renewal moves the end of the lease, a begun attempt is counted if one is
/// left, and the three outcomes end the lease. A rescheduled record is pending
/// again from the moment named on, with its failure noted; a failed one has
/// failed for the reason given; a completed one is completed.
pub proof fn law_the_holder_settles_its_record(
    s: StoreView,
    id: OutboxId,
    lease: OutboxLease,
    until: SystemTime,
    retry: OutboxRetry,
    failure: OutboxFailure,
    now: SystemTime,
    i: int,
)
    requires
        id.value < s.records.len(),
        s.records[id.value as int].status == InMemoryStatus::Claimed(lease),
        now.nanos < lease.until.nanos,
        0 <= i < s.records.len(),
    ensures
        ({
            let at = id.value as int;
            let before = s.records[at];
            let renewed = s.renew(id, lease, until, now);
            let begun = s.begin(id, lease, now);
            let completed = s.complete(id, lease, now);
            let again = s.reschedule(id, lease, retry, now);
            let failed = s.fail(id, lease, failure, now);
            &&& i != at ==> renewed.records[i] == s.records[i] && begun.records[i] == s.records[i]
                && completed.records[i] == s.records[i] && again.records[i] == s.records[i]
                && failed.records[i] == s.records[i]
            &&& renewed.records[at].status matches InMemoryStatus::Claimed(new) && new.worker
                == lease.worker && new.token == lease.token && new.until == until
            &&& renewed.records[at].request == before.request && renewed.records[at].attempt
                == before.attempt && renewed.records[at].last_failure == before.last_failure
            &&& begun.records[at].attempt == (if before.attempt < before.request.max_attempts@ {
                before.attempt + 1
            } else {
                before.attempt as int
            })
            &&& begun.records[at].request == before.request && begun.records[at].status
                == before.status
            &&& !s.fail_next_complete ==> completed.records[at].status is Completed
                && completed.records[at].request == before.request
                && completed.records[at].attempt == before.attempt
            &&& s.fail_next_complete ==> completed.records[at] == before
                && !completed.fail_next_complete
            &&& again.records[at].status is Pending && again.records[at].request.available_at
                == retry.available_at && again.records[at].last_failure == Some(retry.failure.kind)
                && again.records[at].attempt == before.attempt
                && again.records[at].request.payload == before.request.payload
                && again.records[at].request.idempotency_key == before.request.idempotency_key
                && again.records[at].request.metadata == before.request.metadata
            &&& failed.records[at].status == InMemoryStatus::Failed(failure.kind)
                && failed.records[at].last_failure == Some(failure.kind)
                && failed.records[at].attempt == before.attempt && failed.records[at].request
                == before.request
            &&& renewed.records[at] == (RecordView {
                status: renewed.records[at].status,
                ..before
            })
            &&& begun.records[at] == (RecordView { attempt: begun.records[at].attempt, ..before })
            &&& completed.records[at] == (RecordView {
                status: completed.records[at].status,
                ..before
            })
            &&& again.records[at] == (RecordView {
                request: RequestView { available_at: retry.available_at, ..before.request },
                status: InMemoryStatus::Pending,
                last_failure: Some(retry.failure.kind),
                ..before
            })
            &&& failed.records[at] == (RecordView {
                status: InMemoryStatus::Failed(failure.kind),
                last_failure: Some(failure.kind),
                ..before
            })
            &&& renewed.last_token == s.last_token && begun.last_token == s.last_token
                && completed.last_token == s.last_token && again.last_token == s.last_token
                && failed.last_token == s.last_token
            &&& renewed.fail_next_complete == s.fail_next_complete && begun.fail_next_complete
                == s.fail_next_complete && again.fail_next_complete == s.fail_next_complete
                && failed.fail_next_complete == s.fail_next_complete
        }),
{
}

/// What is due: a pending record that is available by now, and one whose lease
/// is over by now and that is available. A claim leaves everything else alone,
/// takes what became available first, and of what became available together,
/// what was stored first. What it takes is held until the time asked for is
/// over.
pub proof fn law_claims_take_what_is_due(
    s: StoreView,
    worker: OutboxWorkerId,
    lease_for: Duration,
    limit: nat,
    now: SystemTime,
    j: int,
    k: int,
)
    requires
        s.inv(),
        s.records.len() <= u64::MAX,
        s.last_token + s.records.len() <= u64::MAX,
        0 <= j < k < s.claim(worker, now, lease_for, limit).1.len(),
    ensures
        ({
            let (end, claims) = s.claim(worker, now, lease_for, limit);
            let a = claims[j].id.value as int;
            let b = claims[k].id.value as int;
            let open = |i: int| {
                &&& s.records[i].request.available_at.nanos <= now.nanos
                &&& s.records[i].status is Pending || (s.records[i].status matches
                    InMemoryStatus::Claimed(held) && held.until.nanos <= now.nanos)
            };
            &&& claims.len() <= limit
            &&& a != b
            &&& 0 <= a < s.records.len() && 0 <= b < s.records.len()
            &&& open(a) && open(b)
            &&& s.records[a].request.available_at.nanos <= s.records[b].request.available_at.nanos
            &&& s.records[a].request.available_at.nanos == s.records[b].request.available_at.nanos
                ==> a < b
            &&& claims[j].request == s.records[a].request
            &&& claims[j].lease.token != claims[k].lease.token
            &&& claims[j].lease.worker == worker && claims[k].lease.worker == worker
            &&& now.nanos + lease_for.nanos <= 0xffff_ffff_ffff_ffff
                ==> claims[k].lease.until.nanos == now.nanos + lease_for.nanos
        }),
{
    laws::law_claims_are_fresh_and_in_order(
        s,
        worker,
        lease_for,
        limit,
        now,
        OutboxLease { worker, token: 0, until: now },
        now,
    );
    laws::law_a_claim_writes_its_lease(s, worker, lease_for, limit, now);
    let (end, claims) = s.claim(worker, now, lease_for, limit);
    assert(store::claimed_before(s.records, claims[j].id.value as int, claims[k].id.value as int));
    let a = claims[j].id.value as int;
    let b = claims[k].id.value as int;
    assert(end.records[a].status == InMemoryStatus::Claimed(claims[j].lease));
    assert(end.records[b].status == InMemoryStatus::Claimed(claims[k].lease));
    lemma_claim_tokens(s, worker, lease_for, limit, now, a, b);
}

// Claims of one call have different tokens.
proof fn lemma_claim_tokens(
    s: StoreView,
    worker: OutboxWorkerId,
    lease_for: Duration,
    limit: nat,
    now: SystemTime,
    a: int,
    b: int,
)
    requires
        s.inv(),
        s.last_token + s.records.len() <= u64::MAX,
        0 <= a < s.records.len(),
        0 <= b < s.records.len(),
        a != b,
    ensures
        s.claim(worker, now, lease_for, limit).0.records[a].status matches InMemoryStatus::Claimed(
            x,
        ) ==> s.claim(worker, now, lease_for, limit).0.records[b].status matches
            InMemoryStatus::Claimed(y) ==> x.token != y.token,
{
    let expired = s.expire(now);
    let n = expired.records.len();
    store::lemma_expire_keeps_inv(s, now);
    store::lemma_due_in_range(expired.records, now, n);
    store::lemma_due_distinct(expired.records, now, n);
    let order = store::due_order(expired.records, now, n);
    lemma_claim_all_keeps_inv(expired, order, worker, now.plus_or_self(lease_for), limit);
}

proof fn lemma_claim_all_keeps_inv(
    s: StoreView,
    order: Seq<int>,
    worker: OutboxWorkerId,
    until: SystemTime,
    limit: nat,
)
    requires
        s.inv(),
        s.last_token + order.len() <= u64::MAX,
        forall|k: int| 0 <= k < order.len() ==> 0 <= #[trigger] order[k] < s.records.len(),
    ensures
        s.claim_all(order, worker, until, limit).0.inv(),
        s.claim_all(order, worker, until, limit).0.records.len() == s.records.len(),
    decreases order.len(),
{
    if order.len() > 0 && limit > 0 {
        let i = order[0];
        assert(0 <= i < s.records.len());
        let after = s.claim_one(i, worker, until);
        let rest = order.drop_first();
        store::lemma_claim_one_keeps_inv(s, i, worker, until);
        assert forall|k: int| 0 <= k < rest.len() implies 0 <= #[trigger] rest[k]
            < after.records.len() by {
            assert(rest[k] == order[k + 1]);
        }
        if s.records[i].attempt >= s.records[i].request.max_attempts@ {
            lemma_claim_all_keeps_inv(after, rest, worker, until, limit);
        } else {
            lemma_claim_all_keeps_inv(after, rest, worker, until, (limit - 1) as nat);
        }
    }
}

proof fn lemma_claim_all_keeps(
    s: StoreView,
    order: Seq<int>,
    worker: OutboxWorkerId,
    until: SystemTime,
    limit: nat,
    i: int,
)
    requires
        0 <= i < s.records.len(),
        forall|k: int| 0 <= k < order.len() ==> 0 <= #[trigger] order[k] < s.records.len(),
        forall|a: int, b: int|
            0 <= a < b < order.len() ==> #[trigger] order[a] != #[trigger] order[b],
        !(s.records[i].status is Claimed) || !order.contains(i),
    ensures
        ({
            let end = s.claim_all(order, worker, until, limit).0;
            &&& end.records.len() == s.records.len()
            &&& end.fail_next_complete == s.fail_next_complete
            &&& end.records[i] == s.records[i] || end.records[i] == (RecordView {
                status: InMemoryStatus::Failed(OutboxFailureKind::Exhausted),
                ..s.records[i]
            }) || end.records[i].status is Claimed && end.records[i] == (RecordView {
                status: end.records[i].status,
                claim_count: (s.records[i].claim_count + 1) as u32,
                ..s.records[i]
            })
        }),
    decreases order.len(),
{
    if order.len() > 0 && limit > 0 {
        let x = order[0];
        let after = s.claim_one(x, worker, until);
        let rest = order.drop_first();
        assert forall|k: int| 0 <= k < rest.len() implies 0 <= #[trigger] rest[k]
            < after.records.len() by {
            assert(rest[k] == order[k + 1]);
        }
        assert forall|a: int, b: int| 0 <= a < b < rest.len() implies #[trigger] rest[a]
            != #[trigger] rest[b] by {
            assert(rest[a] == order[a + 1] && rest[b] == order[b + 1]);
        }
        let left: nat = if s.records[x].attempt >= s.records[x].request.max_attempts@ {
            limit
        } else {
            (limit - 1) as nat
        };
        if rest.contains(i) {
            let k = choose|k: int| 0 <= k < rest.len() && rest[k] == i;
            assert(order[k + 1] == i);
            assert(order.contains(i));
            assert(order[0] != order[k + 1]);
        }
        if x == i {
            assert(!rest.contains(i));
            laws::lemma_claim_all_others(after, rest, worker, until, left, i);
        }
        lemma_claim_all_keeps(after, rest, worker, until, left, i);
    }
}

/// A claim changes of a record no more than who holds it: its request, its
/// attempts and its last failure stay as they are. One that is handed out has
/// been claimed once more; one that fails for want of attempts keeps the
/// failure noted last.
pub proof fn law_a_claim_changes_only_who_holds(
    s: StoreView,
    worker: OutboxWorkerId,
    lease_for: Duration,
    limit: nat,
    now: SystemTime,
    i: int,
)
    requires
        0 <= i < s.records.len(),
    ensures
        ({
            let end = s.claim(worker, now, lease_for, limit).0;
            let before = s.records[i];
            let after = end.records[i];
            &&& end.records.len() == s.records.len()
            &&& end.fail_next_complete == s.fail_next_complete
            &&& after.request == before.request
            &&& after.attempt == before.attempt
            &&& after.last_failure == before.last_failure
            &&& after.claim_count == before.claim_count || after.status is Claimed
                && after.claim_count == (before.claim_count + 1) as u32
            &&& before.status is Completed || before.status is Failed ==> after == before
        }),
{
    let expired = s.expire(now);
    let n = expired.records.len();
    store::lemma_due_in_range(expired.records, now, n);
    store::lemma_due_distinct(expired.records, now, n);
    let order = store::due_order(expired.records, now, n);
    let until = now.plus_or_self(lease_for);
    lemma_claim_all_keeps(expired, order, worker, until, limit, i);
    if !order.contains(i) {
        laws::lemma_claim_all_others(expired, order, worker, until, limit, i);
    }
}

/// Nobody is passed over: what is due and stays pending became available after
/// everything that was handed out, or together with it and was stored later.
pub proof fn law_no_due_record_is_passed_over(
    s: StoreView,
    worker: OutboxWorkerId,
    lease_for: Duration,
    limit: nat,
    now: SystemTime,
    x: int,
    k: int,
)
    requires
        s.inv(),
        s.records.len() <= u64::MAX,
        s.last_token + s.records.len() <= u64::MAX,
        0 <= x < s.records.len(),
        s.records[x].request.available_at.nanos <= now.nanos,
        s.claim(worker, now, lease_for, limit).0.records[x].status is Pending,
        0 <= k < s.claim(worker, now, lease_for, limit).1.len(),
    ensures
        ({
            let c = s.claim(worker, now, lease_for, limit).1[k].id.value as int;
            let first = s.records[c].request.available_at.nanos;
            let second = s.records[x].request.available_at.nanos;
            first < second || first == second && c < x
        }),
{
    let expired = s.expire(now);
    let n = expired.records.len();
    let until = now.plus_or_self(lease_for);
    store::lemma_due_in_range(expired.records, now, n);
    store::lemma_due_distinct(expired.records, now, n);
    laws::lemma_due_in_order(expired.records, now, n);
    let order = store::due_order(expired.records, now, n);
    if !order.contains(x) {
        laws::lemma_claim_all_others(expired, order, worker, until, limit, x);
    }
    lemma_claimed_before_what_is_left(expired, order, worker, until, limit, x);
    let c = s.claim(worker, now, lease_for, limit).1[k].id.value as int;
    assert(store::claimed_before(expired.records, c, x));
    assert(0 <= c < s.records.len()) by {
        laws::law_a_claim_writes_its_lease(s, worker, lease_for, limit, now);
    }
}

proof fn lemma_claimed_before_what_is_left(
    s: StoreView,
    order: Seq<int>,
    worker: OutboxWorkerId,
    until: SystemTime,
    limit: nat,
    x: int,
)
    requires
        s.records.len() <= u64::MAX,
        0 <= x < s.records.len(),
        order.contains(x),
        store::distinct(order),
        laws::in_claim_order(s.records, order),
        forall|k: int| 0 <= k < order.len() ==> 0 <= #[trigger] order[k] < s.records.len(),
        s.claim_all(order, worker, until, limit).0.records[x].status is Pending,
    ensures
        forall|k: int|
            0 <= k < s.claim_all(order, worker, until, limit).1.len() ==> store::claimed_before(
                s.records,
                (#[trigger] s.claim_all(order, worker, until, limit).1[k]).id.value as int,
                x,
            ) && s.claim_all(order, worker, until, limit).1[k].id.value < s.records.len(),
    decreases order.len(),
{
    if limit > 0 {
        let i = order[0];
        let after = s.claim_one(i, worker, until);
        let rest = order.drop_first();
        let at = choose|at: int| 0 <= at < order.len() && order[at] == x;
        assert forall|k: int| 0 <= k < rest.len() implies 0 <= #[trigger] rest[k]
            < after.records.len() by {
            assert(rest[k] == order[k + 1]);
        }
        assert forall|a: int, b: int| 0 <= a < b < rest.len() implies #[trigger] rest[a]
            != #[trigger] rest[b] && store::claimed_before(after.records, rest[a], rest[b]) by {
            assert(rest[a] == order[a + 1] && rest[b] == order[b + 1]);
            assert(store::claimed_before(s.records, order[a + 1], order[b + 1]));
        }
        let left: nat = if s.records[i].attempt >= s.records[i].request.max_attempts@ {
            limit
        } else {
            (limit - 1) as nat
        };
        if i == x {
            assert(!rest.contains(x)) by {
                if rest.contains(x) {
                    let k = choose|k: int| 0 <= k < rest.len() && rest[k] == x;
                    assert(order[k + 1] == x);
                }
            }
            laws::lemma_claim_all_others(after, rest, worker, until, left, x);
        } else {
            assert(rest[at - 1] == x);
            lemma_claimed_before_what_is_left(after, rest, worker, until, left, x);
            assert(store::claimed_before(s.records, order[0], order[at]));
            let all = s.claim_all(order, worker, until, limit).1;
            let more = after.claim_all(rest, worker, until, left).1;
            assert forall|k: int| 0 <= k < all.len() implies store::claimed_before(
                s.records,
                (#[trigger] all[k]).id.value as int,
                x,
            ) && all[k].id.value < s.records.len() by {
                if left == limit {
                    assert(all[k] == more[k]);
                    assert(store::claimed_before(after.records, more[k].id.value as int, x));
                } else if k > 0 {
                    assert(all[k] == more[k - 1]);
                    assert(store::claimed_before(after.records, more[k - 1].id.value as int, x));
                }
            }
        }
    }
}

/// Below the limit nothing due is left: a record that is due is held by the
/// worker under a fresh token, or has failed if it had no attempt left.
pub proof fn law_nothing_due_is_left_below_the_limit(
    s: StoreView,
    worker: OutboxWorkerId,
    lease_for: Duration,
    limit: nat,
    now: SystemTime,
    i: int,
)
    requires
        s.inv(),
        s.records.len() <= u64::MAX,
        s.last_token + s.records.len() <= u64::MAX,
        0 <= i < s.records.len(),
        s.records[i].request.available_at.nanos <= now.nanos,
        s.records[i].status is Pending || (s.records[i].status matches InMemoryStatus::Claimed(held)
            && held.until.nanos <= now.nanos),
        s.claim(worker, now, lease_for, limit).1.len() < limit,
    ensures
        ({
            let (end, claims) = s.claim(worker, now, lease_for, limit);
            &&& !(end.records[i].status is Pending)
            &&& s.records[i].attempt >= s.records[i].request.max_attempts@ ==> end.records[i].status
                == InMemoryStatus::Failed(OutboxFailureKind::Exhausted)
            &&& s.records[i].attempt < s.records[i].request.max_attempts@ ==> (
            end.records[i].status matches InMemoryStatus::Claimed(lease) && lease.worker == worker
                && lease.token > s.last_token)
        }),
{
    let expired = s.expire(now);
    let n = expired.records.len();
    let until = now.plus_or_self(lease_for);
    store::lemma_due_in_range(expired.records, now, n);
    store::lemma_due_distinct(expired.records, now, n);
    let order = store::due_order(expired.records, now, n);
    assert(expired.records[i].is_due(now));
    assert(order.contains(i));
    lemma_claim_all_takes(expired, order, worker, until, limit, i);
}

proof fn lemma_claim_all_takes(
    s: StoreView,
    order: Seq<int>,
    worker: OutboxWorkerId,
    until: SystemTime,
    limit: nat,
    x: int,
)
    requires
        s.last_token + order.len() <= u64::MAX,
        0 <= x < s.records.len(),
        order.contains(x),
        store::distinct(order),
        forall|k: int| 0 <= k < order.len() ==> 0 <= #[trigger] order[k] < s.records.len(),
        s.claim_all(order, worker, until, limit).1.len() < limit,
    ensures
        ({
            let end = s.claim_all(order, worker, until, limit).0;
            &&& s.records[x].attempt >= s.records[x].request.max_attempts@ ==> end.records[x].status
                == InMemoryStatus::Failed(OutboxFailureKind::Exhausted)
            &&& s.records[x].attempt < s.records[x].request.max_attempts@ ==> (
            end.records[x].status matches InMemoryStatus::Claimed(lease) && lease.worker == worker
                && lease.token > s.last_token)
        }),
    decreases order.len(),
{
    let i = order[0];
    let after = s.claim_one(i, worker, until);
    let rest = order.drop_first();
    assert forall|k: int| 0 <= k < rest.len() implies 0 <= #[trigger] rest[k]
        < after.records.len() by {
        assert(rest[k] == order[k + 1]);
    }
    assert forall|a: int, b: int| 0 <= a < b < rest.len() implies #[trigger] rest[a]
        != #[trigger] rest[b] by {
        assert(rest[a] == order[a + 1] && rest[b] == order[b + 1]);
    }
    let left: nat = if s.records[i].attempt >= s.records[i].request.max_attempts@ {
        limit
    } else {
        (limit - 1) as nat
    };
    if i == x {
        assert(!rest.contains(x)) by {
            if rest.contains(x) {
                let k = choose|k: int| 0 <= k < rest.len() && rest[k] == x;
                assert(order[k + 1] == x);
            }
        }
        laws::lemma_claim_all_others(after, rest, worker, until, left, x);
    } else {
        assert(rest.contains(x)) by {
            let k = choose|k: int| 0 <= k < order.len() && order[k] == x;
            assert(rest[k - 1] == x);
        }
        lemma_claim_all_takes(after, rest, worker, until, left, x);
    }
}

/// What a store shows of a record is what it holds.
pub proof fn law_a_snapshot_tells_the_status(status: InMemoryStatus)
    ensures
        status is Pending <==> store::status_of(status) is Pending,
        status is Claimed <==> store::status_of(status) is Claimed,
        status is Completed <==> store::status_of(status) is Completed,
        status matches InMemoryStatus::Failed(kind) ==> store::status_of(status)
            == OutboxStatus::Failed(kind),
        status matches InMemoryStatus::Claimed(lease) ==> store::lease_of(status) == Some(lease),
        !(status is Claimed) ==> store::lease_of(status) is None,
{
}

/// A lookup finds the records that were stored, each under its id, and shows
/// every field as it is held.
pub proof fn law_a_lookup_shows_the_record(
    s: StoreView,
    id: OutboxId,
    found: Option<OutboxSnapshot>,
)
    requires
        s.finds(id, found),
    ensures
        found is None <==> id.value >= s.records.len(),
        found matches Some(snapshot) ==> {
            let record = s.records[id.value as int];
            &&& snapshot.id == id
            &&& snapshot.idempotency_key@ == record.request.idempotency_key
            &&& snapshot.attempt == record.attempt
            &&& snapshot.claim_count == record.claim_count
            &&& snapshot.max_attempts == record.request.max_attempts
            &&& snapshot.available_at == record.request.available_at
            &&& snapshot.payload_version == record.request.payload_version
            &&& snapshot.metadata == record.request.metadata
            &&& snapshot.last_failure == record.last_failure
            &&& snapshot.status is Pending <==> record.status is Pending
            &&& snapshot.status is Completed <==> record.status is Completed
            &&& snapshot.status is Failed <==> record.status is Failed
            &&& snapshot.lease is Some <==> record.status is Claimed
        },
{
}

proof fn lemma_pending_among(s: StoreView, n: nat)
    requires
        n <= s.records.len(),
    ensures
        s.pending(n) == s.records.take(n as int).filter(|r: RecordView| r.status is Pending).len(),
    decreases n,
{
    reveal(Seq::filter);
    if n > 0 {
        lemma_pending_among(s, (n - 1) as nat);
        assert(s.records.take(n as int).drop_last() =~= s.records.take(n - 1));
    }
}

/// What is counted as pending are the records that are.
pub proof fn law_pending_records_are_counted(s: StoreView)
    ensures
        s.pending(s.records.len()) == s.records.filter(|r: RecordView| r.status is Pending).len(),
{
    lemma_pending_among(s, s.records.len());
    assert(s.records.take(s.records.len() as int) =~= s.records);
}

// ---------- delivering ----------

/// The steps of a delivery: a permit leads to counting the attempt, a counted
/// attempt to performing the request as that attempt, what was performed to
/// giving the permit back, and that to storing the outcome. A record without
/// an attempt left gives its permit back unused and fails as exhausted.
pub proof fn law_a_delivery_goes_step_by_step(
    d: Delivery,
    attempt: u32,
    settings: OutboxWorkerSettings,
    now: SystemTime,
    later: SystemTime,
)
    ensures
        d.phase is Acquiring ==> (d.next(DeliveryEvent::Acquired(Ok(())), settings, now) matches
            Some((mid, action)) && action is BeginAttempt && mid.phase is Beginning),
        d.phase is Beginning ==> (d.next(
            DeliveryEvent::Began(OutboxAttemptStart::Started { attempt }),
            settings,
            now,
        ) matches Some((mid, action)) && action == (DeliveryAction::Execute { attempt })
            && mid.phase == (DeliveryPhase::Executing { attempt })),
        d.phase is Beginning ==> (d.next(
            DeliveryEvent::Began(OutboxAttemptStart::Exhausted),
            settings,
            now,
        ) matches Some((mid, action)) && action == DeliveryAction::CompletePermit(
            OutboundCompletion::NoRequest,
        ) && (mid.next(DeliveryEvent::PermitCompleted, settings, later) matches Some((_, stored))
            && stored == DeliveryAction::Store(
            StoreAction::Fail(OutboxFailure { kind: OutboxFailureKind::Exhausted }),
        ))),
        d.phase is Storing ==> (d.next(DeliveryEvent::Stored, settings, now) matches Some(
            (mid, action),
        ) && action is Finish && mid.phase is Done),
{
}

/// What a performed request comes to. The permit is given back as successful,
/// as failed, or with the penalty that was asked for, of the scope and span
/// named. Success completes the record and a permanent failure fails it. A
/// failure that may pass is tried again while attempts are left, else the
/// record fails as exhausted: after a `RetryAfter` once the span asked for is
/// over, after a transient failure of the n-th attempt once the base delay,
/// doubled n - 1 times, is over, but no later than the longest delay. (A
/// moment that cannot be named is replaced by the present one.)
pub proof fn law_a_failed_attempt_waits_before_the_next(
    d: Delivery,
    attempt: u32,
    result: Result<(), OutboxExecutionError>,
    settings: OutboxWorkerSettings,
    ended: SystemTime,
    now: SystemTime,
)
    requires
        d.phase == (DeliveryPhase::Executing { attempt }),
        attempt >= 1,
    ensures
        d.next(DeliveryEvent::Executed(result), settings, ended) matches Some((mid, given_back))
            && mid.next(DeliveryEvent::PermitCompleted, settings, now) matches Some((_, stored))
            && {
            let doubled: int = settings.transient_backoff_base.nanos * power2::pow2(
                (attempt - 1) as nat,
            );
            let backoff: int = if doubled <= settings.transient_backoff_max.nanos {
                doubled
            } else {
                settings.transient_backoff_max.nanos as int
            };
            let tried_again_after = |wait: int, kind: OutboxFailureKind| {
                if attempt >= d.max_attempts@ {
                    stored == DeliveryAction::Store(
                        StoreAction::Fail(OutboxFailure { kind: OutboxFailureKind::Exhausted }),
                    )
                } else {
                    &&& stored matches DeliveryAction::Store(StoreAction::Reschedule(retry))
                    &&& retry.failure.kind == kind
                    &&& now.nanos + wait <= 0xffff_ffff_ffff_ffff ==> retry.available_at.nanos
                        == now.nanos + wait
                    &&& now.nanos + wait > 0xffff_ffff_ffff_ffff ==> retry.available_at == now
                }
            };
            match result {
                Ok(_) => {
                    &&& given_back == DeliveryAction::CompletePermit(OutboundCompletion::Success)
                    &&& stored == DeliveryAction::Store(StoreAction::Complete)
                },
                Err(OutboxExecutionError::Permanent) => {
                    &&& given_back == DeliveryAction::CompletePermit(OutboundCompletion::Failed)
                    &&& stored == DeliveryAction::Store(
                        StoreAction::Fail(OutboxFailure { kind: OutboxFailureKind::Permanent }),
                    )
                },
                Err(OutboxExecutionError::Transient) => {
                    &&& given_back == DeliveryAction::CompletePermit(OutboundCompletion::Failed)
                    &&& tried_again_after(backoff, OutboxFailureKind::Transient)
                },
                Err(OutboxExecutionError::RetryAfter { scope, duration }) => {
                    &&& given_back == DeliveryAction::CompletePermit(
                        OutboundCompletion::RetryAfter { scope, duration },
                    )
                    &&& tried_again_after(duration.nanos as int, OutboxFailureKind::RetryAfter)
                },
            }
        },
{
    if attempt == 1 {
        power2::lemma2_to64();
    }
    let p = power2::pow2((attempt - 1) as nat) as int;
    assert(settings.transient_backoff_base.nanos * p >= 0) by (nonlinear_arith)
        requires
            p >= 0,
            settings.transient_backoff_base.nanos >= 0,
    ;
}

/// How the delays of transient failures grow: the first is the base delay,
/// every further one is twice the one before, and none is longer than the
/// longest.
pub proof fn law_every_backoff_doubles_the_one_before(base: u64, max: u64, attempt: u32)
    requires
        1 <= attempt < u32::MAX,
    ensures
        base <= max ==> worker::backoff_nanos(base, max, 1) == base,
        ({
            let wait = worker::backoff_nanos(base, max, attempt);
            let next = worker::backoff_nanos(base, max, (attempt + 1) as u32);
            &&& 2 * wait <= max ==> next == 2 * wait
            &&& 2 * wait > max ==> next == max
        }),
{
    power2::lemma2_to64();
    power2::lemma_pow2_unfold(attempt as nat);
    let p = power2::pow2((attempt - 1) as nat) as int;
    assert(base * (2 * p) == 2 * (base * p)) by (nonlinear_arith);
    assert(base * p >= 0) by (nonlinear_arith)
        requires
            p >= 0,
            base >= 0,
    ;
    assert(base * 1 == base);
}

/// What a refused permit comes to: where the queue is full, closed or has
/// replaced the request, the record is tried again once the delay of an
/// unavailable scheduler is over, while attempts are left; a request that the
/// queue can never take fails for good. No attempt is counted.
pub proof fn law_a_refused_permit_waits_or_fails(
    d: Delivery,
    error: OutboundAcquireError,
    settings: OutboxWorkerSettings,
    now: SystemTime,
)
    requires
        d.phase is Acquiring,
    ensures
        d.next(DeliveryEvent::Acquired(Err(error)), settings, now) matches Some(
            (after, DeliveryAction::Store(stored)),
        ) && after.phase is Storing && {
            let wait = settings.scheduler_retry_delay.nanos;
            if error is QueueFull || error is Closed || error is Superseded {
                if d.attempt_before_start >= d.max_attempts@ {
                    stored == StoreAction::Fail(OutboxFailure { kind: OutboxFailureKind::Exhausted })
                } else {
                    &&& stored matches StoreAction::Reschedule(retry)
                    &&& retry.failure.kind is SchedulerUnavailable
                    &&& now.nanos + wait <= 0xffff_ffff_ffff_ffff ==> retry.available_at.nanos
                        == now.nanos + wait
                }
            } else {
                stored == StoreAction::Fail(OutboxFailure { kind: OutboxFailureKind::Permanent })
            }
        },
{
}

/// A lease is renewed in time: three times while it lasts, though never more
/// often than once a millisecond.
pub proof fn law_a_lease_is_renewed_three_times(lease_for: Duration)
    ensures
        ({
            let period = worker::renewal_period(lease_for).nanos;
            &&& period >= 1_000_000
            &&& lease_for.nanos >= 3_000_003 ==> 3 * period <= lease_for.nanos < 3 * period + 3
            &&& lease_for.nanos < 3_000_003 ==> period == 1_000_000
        }),
{
}

// ---------- what is known of a record ----------

/// A request is known by every one of its fields, a claim by every one of its
/// own, and nothing else counts: two that are known alike hold the same text,
/// the same bytes and the same values.
pub proof fn law_requests_are_known_by_their_fields(
    request: NewOutboxRequest,
    claim: ClaimedOutboxRequest,
)
    ensures
        request@.idempotency_key == request.idempotency_key@,
        request@.payload == request.payload@,
        request@.payload_version == request.payload_version,
        request@.metadata == request.metadata,
        request@.available_at == request.available_at,
        request@.max_attempts == request.max_attempts,
        claim@.id == claim.id,
        claim@.request.idempotency_key == claim.idempotency_key@,
        claim@.request.payload == claim.payload@,
        claim@.request.payload_version == claim.payload_version,
        claim@.request.metadata == claim.metadata,
        claim@.request.available_at == claim.available_at,
        claim@.request.max_attempts == claim.max_attempts,
        claim@.attempt == claim.attempt,
        claim@.claim_count == claim.claim_count,
        claim@.lease == claim.lease,
        DEFAULT_ATTEMPTS == 5,
{
}

} // verus!
