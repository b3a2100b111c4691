//! The promises of the outbox.

use super::records::{
    ClaimView, InMemoryOutboxError, OutboxEnqueueResult, OutboxFailure, OutboxFailureKind, OutboxId,
    OutboxLease, OutboxRetry, OutboxWorkerId, RequestView,
};
use super::store::{InMemoryStatus, RecordView, StoreView};
use super::worker::{Delivery, DeliveryAction, DeliveryEvent, DeliveryPhase, OutboxWorkerSettings, StoreAction};
use super::{store, worker};
use crate::time::{Duration, SystemTime};
use crate::types::OutboundAcquireError;
use vstd::arithmetic::power2;
use vstd::prelude::*;

verus! {

// ---------- storing ----------

/// The same work under the same key is stored once: the second request is
/// told the record of the first one and changes nothing, and different work
/// under that key conflicts with that record and changes nothing.
pub proof fn law_same_key_is_stored_once(s: StoreView, first: RequestView, second: RequestView)
    requires
        s.inv(),
        s.records.len() < u64::MAX,
        s.enqueue_result(first) is Ok,
        second.idempotency_key == first.idempotency_key,
    ensures
        ({
            let after = s.enqueue(first);
            let id = match s.enqueue_result(first)->Ok_0 {
                OutboxEnqueueResult::Inserted(id) => id,
                OutboxEnqueueResult::Existing(id) => id,
            };
            &&& after.enqueue(second) == after
            &&& store::agree(first, second) ==> after.enqueue_result(second) == Ok::<
                OutboxEnqueueResult,
                InMemoryOutboxError,
            >(OutboxEnqueueResult::Existing(id))
            &&& !store::agree(first, second) ==> after.enqueue_result(second) == Err::<
                OutboxEnqueueResult,
                InMemoryOutboxError,
            >(InMemoryOutboxError::Conflict { id })
        }),
{
    let after = s.enqueue(first);
    let key = first.idempotency_key;
    let i = if s.has_key(key) {
        s.under_key(key)
    } else {
        s.records.len() as int
    };
    assert(after.records[i].request.idempotency_key == key);
    assert(after.has_key(key));
    let j = after.under_key(key);
    assert(i == j) by {
        if !s.has_key(key) && j < i {
            assert(s.records[j].request.idempotency_key == key);
        }
        if s.has_key(key) {
            if i < j {
                assert(s.records[i].request.idempotency_key
                    != s.records[j].request.idempotency_key);
            } else if j < i {
                assert(s.records[j].request.idempotency_key
                    != s.records[i].request.idempotency_key);
            }
        }
    }
}

/// Storing a request keeps every record there is.
pub proof fn law_enqueue_keeps_the_records(s: StoreView, request: RequestView, i: int)
    requires
        0 <= i < s.records.len(),
    ensures
        s.enqueue(request).records[i] == s.records[i],
{
}

// ---------- fencing ----------

/// A lease that does not hold the record at `now` changes nothing.
pub proof fn law_stale_lease_changes_nothing(
    s: StoreView,
    id: OutboxId,
    lease: OutboxLease,
    until: SystemTime,
    retry: OutboxRetry,
    failure: OutboxFailure,
    now: SystemTime,
)
    requires
        id.value >= s.records.len() || !store::holds(
            s.records[id.value as int].status,
            lease,
            now,
        ),
    ensures
        s.renew(id, lease, until, now) == s,
        s.begin(id, lease, now) == s,
        s.complete(id, lease, now).records == s.records,
        s.reschedule(id, lease, retry, now) == s,
        s.fail(id, lease, failure, now) == s,
{
}

/// Renewing a lease keeps its owner and its token.
pub proof fn law_renewal_keeps_owner_and_token(
    s: StoreView,
    id: OutboxId,
    lease: OutboxLease,
    until: SystemTime,
    now: SystemTime,
)
    requires
        s.refusal(id, lease, now) is None,
    ensures
        s.renew(id, lease, until, now).records[id.value as int].status
            == InMemoryStatus::Claimed(
            OutboxLease { worker: lease.worker, token: lease.token, until },
        ),
{
}

// ---------- final states ----------

/// A record that is completed or has failed stays as it is.
pub proof fn law_final_states_are_final(
    s: StoreView,
    i: int,
    request: RequestView,
    id: OutboxId,
    lease: OutboxLease,
    until: SystemTime,
    retry: OutboxRetry,
    failure: OutboxFailure,
    worker: OutboxWorkerId,
    lease_for: Duration,
    limit: nat,
    now: SystemTime,
)
    requires
        0 <= i < s.records.len(),
        s.records[i].is_terminal(),
    ensures
        s.enqueue(request).records[i] == s.records[i],
        s.renew(id, lease, until, now).records[i] == s.records[i],
        s.begin(id, lease, now).records[i] == s.records[i],
        s.complete(id, lease, now).records[i] == s.records[i],
        s.reschedule(id, lease, retry, now).records[i] == s.records[i],
        s.fail(id, lease, failure, now).records[i] == s.records[i],
        s.claim(worker, now, lease_for, limit).0.records[i] == s.records[i],
{
    let expired = s.expire(now);
    let n = expired.records.len();
    store::lemma_due_distinct(expired.records, now, n);
    store::lemma_due_in_range(expired.records, now, n);
    let order = store::due_order(expired.records, now, n);
    assert(expired.records[i] == s.records[i]);
    assert(!order.contains(i));
    lemma_claim_all_others(expired, order, worker, now.plus_or_self(lease_for), limit, i);
}

pub proof fn lemma_claim_all_others(
    s: StoreView,
    order: Seq<int>,
    worker: OutboxWorkerId,
    until: SystemTime,
    limit: nat,
    x: int,
)
    requires
        0 <= x < s.records.len(),
        !order.contains(x),
        forall|k: int| 0 <= k < order.len() ==> 0 <= #[trigger] order[k] < s.records.len(),
    ensures
        s.claim_all(order, worker, until, limit).0.records[x] == s.records[x],
        s.claim_all(order, worker, until, limit).0.records.len() == s.records.len(),
    decreases order.len(),
{
    if order.len() > 0 && limit > 0 {
        let i = order[0];
        let after = s.claim_one(i, worker, until);
        let rest = order.drop_first();
        assert(order.contains(i));
        assert(!rest.contains(x)) by {
            if rest.contains(x) {
                let k = choose|k: int| 0 <= k < rest.len() && rest[k] == x;
                assert(order[k + 1] == x);
            }
        }
        assert forall|k: int| 0 <= k < rest.len() implies 0 <= #[trigger] rest[k]
            < after.records.len() by {
            assert(rest[k] == order[k + 1]);
        }
        if s.records[i].attempt >= s.records[i].request.max_attempts@ {
            lemma_claim_all_others(after, rest, worker, until, limit, x);
        } else {
            lemma_claim_all_others(after, rest, worker, until, (limit - 1) as nat, x);
        }
    }
}

// ---------- attempts ----------

/// Only beginning an attempt counts one, and it counts exactly one.
pub proof fn law_only_begun_attempts_count(
    s: StoreView,
    i: int,
    id: OutboxId,
    lease: OutboxLease,
    until: SystemTime,
    retry: OutboxRetry,
    failure: OutboxFailure,
    worker: OutboxWorkerId,
    lease_for: Duration,
    limit: nat,
    now: SystemTime,
)
    requires
        0 <= i < s.records.len(),
    ensures
        s.begin(id, lease, now).records[i].attempt == s.records[i].attempt + (if i == id.value
            && s.refusal(id, lease, now) is None && !s.is_exhausted(id) {
            1int
        } else {
            0int
        }),
        s.renew(id, lease, until, now).records[i].attempt == s.records[i].attempt,
        s.complete(id, lease, now).records[i].attempt == s.records[i].attempt,
        s.reschedule(id, lease, retry, now).records[i].attempt == s.records[i].attempt,
        s.fail(id, lease, failure, now).records[i].attempt == s.records[i].attempt,
        s.claim(worker, now, lease_for, limit).0.records[i].attempt == s.records[i].attempt,
{
    let expired = s.expire(now);
    let n = expired.records.len();
    store::lemma_due_in_range(expired.records, now, n);
    let order = store::due_order(expired.records, now, n);
    lemma_claim_all_attempts(expired, order, worker, now.plus_or_self(lease_for), limit, i);
}

pub proof fn lemma_claim_all_attempts(
    s: StoreView,
    order: Seq<int>,
    worker: OutboxWorkerId,
    until: SystemTime,
    limit: nat,
    x: int,
)
    requires
        0 <= x < s.records.len(),
        forall|k: int| 0 <= k < order.len() ==> 0 <= #[trigger] order[k] < s.records.len(),
    ensures
        s.claim_all(order, worker, until, limit).0.records[x].attempt == s.records[x].attempt,
        s.claim_all(order, worker, until, limit).0.records[x].request == s.records[x].request,
    decreases order.len(),
{
    if order.len() > 0 && limit > 0 {
        let i = order[0];
        assert(0 <= i < s.records.len());
        let after = s.claim_one(i, worker, until);
        let rest = order.drop_first();
        assert forall|k: int| 0 <= k < rest.len() implies 0 <= #[trigger] rest[k]
            < after.records.len() by {
            assert(rest[k] == order[k + 1]);
        }
        if s.records[i].attempt >= s.records[i].request.max_attempts@ {
            lemma_claim_all_attempts(after, rest, worker, until, limit, x);
        } else {
            lemma_claim_all_attempts(after, rest, worker, until, (limit - 1) as nat, x);
        }
    }
}

// ---------- claims ----------

/// Whether a list of records is in the order in which they are claimed.
pub open spec fn in_claim_order(records: Seq<RecordView>, order: Seq<int>) -> bool {
    forall|i: int, j: int|
        0 <= i < j < order.len() ==> store::claimed_before(
            records,
            #[trigger] order[i],
            #[trigger] order[j],
        )
}

proof fn lemma_placed_in_order(records: Seq<RecordView>, order: Seq<int>, id: int)
    requires
        in_claim_order(records, order),
        forall|k: int| 0 <= k < order.len() ==> #[trigger] order[k] != id,
    ensures
        in_claim_order(records, store::placed(records, order, id)),
        forall|k: int|
            0 <= k < store::placed(records, order, id).len() ==> #[trigger] store::placed(
                records,
                order,
                id,
            )[k] == id || order.contains(store::placed(records, order, id)[k]),
    decreases order.len(),
{
    let after = store::placed(records, order, id);
    if order.len() == 0 || store::claimed_before(records, order.last(), id) {
        assert(after == order.push(id));
        assert forall|i: int, j: int| 0 <= i < j < after.len() implies store::claimed_before(
            records,
            #[trigger] after[i],
            #[trigger] after[j],
        ) by {
            assert(after[i] == order[i]);
            if j < order.len() {
                assert(after[j] == order[j]);
            } else if i < order.len() - 1 {
                assert(store::claimed_before(records, order[i], order[order.len() - 1]));
            }
        }
        assert forall|k: int| 0 <= k < after.len() implies #[trigger] after[k] == id
            || order.contains(after[k]) by {
            if k < order.len() {
                assert(order[k] == after[k]);
            }
        }
    } else {
        let front = order.drop_last();
        let last = order.last();
        assert(order[order.len() - 1] == last);
        assert forall|k: int| 0 <= k < front.len() implies #[trigger] front[k] != id by {
            assert(front[k] == order[k]);
        }
        assert(in_claim_order(records, front)) by {
            assert forall|i: int, j: int| 0 <= i < j < front.len() implies store::claimed_before(
                records,
                #[trigger] front[i],
                #[trigger] front[j],
            ) by {
                assert(front[i] == order[i] && front[j] == order[j]);
            }
        }
        lemma_placed_in_order(records, front, id);
        let mid = store::placed(records, front, id);
        assert(after == mid.push(last));
        assert forall|k: int| 0 <= k < mid.len() implies store::claimed_before(
            records,
            #[trigger] mid[k],
            last,
        ) by {
            if mid[k] != id {
                assert(front.contains(mid[k]));
                let q = choose|q: int| 0 <= q < front.len() && front[q] == mid[k];
                assert(order[q] == mid[k]);
            }
        }
        assert forall|i: int, j: int| 0 <= i < j < after.len() implies store::claimed_before(
            records,
            #[trigger] after[i],
            #[trigger] after[j],
        ) by {
            assert(after[i] == mid[i]);
            if j < mid.len() {
                assert(after[j] == mid[j]);
            }
        }
        assert forall|k: int| 0 <= k < after.len() implies #[trigger] after[k] == id
            || order.contains(after[k]) by {
            if k < mid.len() {
                assert(after[k] == mid[k]);
                if mid[k] != id {
                    let q = choose|q: int| 0 <= q < front.len() && front[q] == mid[k];
                    assert(order[q] == mid[k]);
                }
            }
        }
    }
}

pub proof fn lemma_due_in_order(records: Seq<RecordView>, now: SystemTime, n: nat)
    requires
        n <= records.len(),
    ensures
        in_claim_order(records, store::due_order(records, now, n)),
    decreases n,
{
    if n > 0 {
        lemma_due_in_order(records, now, (n - 1) as nat);
        store::lemma_due_in_range(records, now, (n - 1) as nat);
        let before = store::due_order(records, now, (n - 1) as nat);
        if records[n - 1].is_due(now) {
            assert forall|k: int| 0 <= k < before.len() implies #[trigger] before[k] != n - 1 by {}
            lemma_placed_in_order(records, before, n - 1);
        }
    }
}

/// What holds of the claims of one pass over `order`.
pub open spec fn claims_are_sound(
    s: StoreView,
    order: Seq<int>,
    limit: nat,
    end: StoreView,
    claims: Seq<ClaimView>,
) -> bool {
    &&& claims.len() <= limit
    &&& end.records.len() == s.records.len()
    &&& end.last_token >= s.last_token
    &&& forall|k: int|
        0 <= k < claims.len() ==> {
            let c = #[trigger] claims[k];
            let i = c.id.value as int;
            &&& order.contains(i)
            &&& s.records[i].attempt < s.records[i].request.max_attempts@
            &&& c.request == s.records[i].request
            &&& c.attempt == s.records[i].attempt
            &&& s.last_token < c.lease.token <= end.last_token
            &&& end.records[i].status == InMemoryStatus::Claimed(c.lease)
        }
    &&& forall|j: int, k: int|
        0 <= j < k < claims.len() ==> store::claimed_before(
            s.records,
            (#[trigger] claims[j]).id.value as int,
            (#[trigger] claims[k]).id.value as int,
        )
    &&& claims.len() < limit ==> forall|x: int| #[trigger]
        order.contains(x) ==> !(end.records[x].status is Pending)
}

proof fn lemma_claims_are_sound(
    s: StoreView,
    order: Seq<int>,
    worker: OutboxWorkerId,
    until: SystemTime,
    limit: nat,
)
    requires
        in_claim_order(s.records, order),
        forall|k: int| 0 <= k < order.len() ==> 0 <= #[trigger] order[k] < s.records.len(),
        s.records.len() <= u64::MAX,
        s.last_token + order.len() <= u64::MAX,
    ensures
        claims_are_sound(
            s,
            order,
            limit,
            s.claim_all(order, worker, until, limit).0,
            s.claim_all(order, worker, until, limit).1,
        ),
    decreases order.len(),
{
    let (end, claims) = s.claim_all(order, worker, until, limit);
    if order.len() > 0 && limit > 0 {
        let i = order[0];
        assert(0 <= i < s.records.len());
        assert(order.contains(i));
        let after = s.claim_one(i, worker, until);
        let rest = order.drop_first();
        assert forall|k: int| 0 <= k < rest.len() implies {
            &&& 0 <= #[trigger] rest[k] < after.records.len()
            &&& store::claimed_before(s.records, i, rest[k])
            &&& rest[k] != i
            &&& order.contains(rest[k])
        } by {
            assert(rest[k] == order[k + 1]);
            assert(store::claimed_before(s.records, order[0], order[k + 1]));
        }
        assert(in_claim_order(after.records, rest)) by {
            assert forall|a: int, b: int| 0 <= a < b < rest.len() implies store::claimed_before(
                after.records,
                #[trigger] rest[a],
                #[trigger] rest[b],
            ) by {
                assert(rest[a] == order[a + 1] && rest[b] == order[b + 1]);
                assert(store::claimed_before(s.records, order[a + 1], order[b + 1]));
            }
        }
        assert(!rest.contains(i)) by {
            if rest.contains(i) {
                let k = choose|k: int| 0 <= k < rest.len() && rest[k] == i;
                assert(rest[k] != i);
            }
        }
        let left: nat = if s.records[i].attempt >= s.records[i].request.max_attempts@ {
            limit
        } else {
            (limit - 1) as nat
        };
        lemma_claims_are_sound(after, rest, worker, until, left);
        lemma_claim_all_others(after, rest, worker, until, left, i);
        let (last, tail) = after.claim_all(rest, worker, until, left);
        assert(end == last);
        assert forall|k: int| 0 <= k < tail.len() implies {
            let c = #[trigger] tail[k];
            let x = c.id.value as int;
            &&& order.contains(x)
            &&& x != i
            &&& store::claimed_before(s.records, i, x)
            &&& after.records[x] == s.records[x]
        } by {
            let x = tail[k].id.value as int;
            assert(rest.contains(x));
            let q = choose|q: int| 0 <= q < rest.len() && rest[q] == x;
            assert(rest[q] != i);
            assert(order[q + 1] == x);
        }
        if s.records[i].attempt >= s.records[i].request.max_attempts@ {
            assert(claims == tail);
            assert forall|j: int, k: int| 0 <= j < k < claims.len() implies store::claimed_before(
                s.records,
                (#[trigger] claims[j]).id.value as int,
                (#[trigger] claims[k]).id.value as int,
            ) by {
                assert(tail[j] == claims[j] && tail[k] == claims[k]);
                assert(store::claimed_before(
                    after.records,
                    tail[j].id.value as int,
                    tail[k].id.value as int,
                ));
            }
        } else {
            let first = s.claim_of(i, worker, until);
            assert(claims == seq![first] + tail);
            assert forall|k: int| 0 <= k < claims.len() implies {
                let c = #[trigger] claims[k];
                let x = c.id.value as int;
                &&& order.contains(x)
                &&& s.records[x].attempt < s.records[x].request.max_attempts@
                &&& c.request == s.records[x].request
                &&& c.attempt == s.records[x].attempt
                &&& s.last_token < c.lease.token <= end.last_token
                &&& end.records[x].status == InMemoryStatus::Claimed(c.lease)
            } by {
                if k > 0 {
                    assert(claims[k] == tail[k - 1]);
                }
            }
            assert forall|j: int, k: int| 0 <= j < k < claims.len() implies store::claimed_before(
                s.records,
                (#[trigger] claims[j]).id.value as int,
                (#[trigger] claims[k]).id.value as int,
            ) by {
                assert(claims[k] == tail[k - 1]);
                if j > 0 {
                    assert(claims[j] == tail[j - 1]);
                    assert(store::claimed_before(
                        after.records,
                        tail[j - 1].id.value as int,
                        tail[k - 1].id.value as int,
                    ));
                }
            }
        }
        if claims.len() < limit {
            assert forall|x: int| #[trigger] order.contains(x) implies !(
            end.records[x].status is Pending) by {
                let q = choose|q: int| 0 <= q < order.len() && order[q] == x;
                if q > 0 {
                    assert(rest[q - 1] == x);
                    assert(rest.contains(x));
                }
            }
        }
    } else {
        assert(claims =~= Seq::empty());
        if claims.len() < limit {
            assert(order.len() == 0);
        }
    }
}

/// Claiming hands out at most `limit` records that are due once expired
/// leases have ended, the ones that became available first before others.
/// Each is held by a fresh token, so every lease issued before is fenced
/// off. If the limit is not reached, nothing due is left pending.
pub proof fn law_claims_are_fresh_and_in_order(
    s: StoreView,
    worker: OutboxWorkerId,
    lease_for: Duration,
    limit: nat,
    now: SystemTime,
    old: OutboxLease,
    later: SystemTime,
)
    requires
        s.inv(),
        s.records.len() <= u64::MAX,
        s.last_token + s.records.len() <= u64::MAX,
        old.token <= s.last_token,
    ensures
        ({
            let (end, claims) = s.claim(worker, now, lease_for, limit);
            &&& claims.len() <= limit
            &&& forall|k: int|
                0 <= k < claims.len() ==> {
                    let c = #[trigger] claims[k];
                    let i = c.id.value as int;
                    &&& 0 <= i < s.records.len()
                    &&& s.records[i].expired(now).is_due(now)
                    &&& c.request == s.records[i].request
                    &&& c.attempt == s.records[i].attempt
                    &&& c.lease.token > s.last_token
                    &&& end.records[i].status == InMemoryStatus::Claimed(c.lease)
                    &&& !store::holds(end.records[i].status, old, later)
                }
            &&& forall|j: int, k: int|
                0 <= j < k < claims.len() ==> store::claimed_before(
                    s.records,
                    (#[trigger] claims[j]).id.value as int,
                    (#[trigger] claims[k]).id.value as int,
                )
            &&& claims.len() < limit ==> forall|x: int|
                0 <= x < s.records.len() ==> !(#[trigger] end.records[x]).is_due(now)
        }),
{
    let expired = s.expire(now);
    let n = expired.records.len();
    let until = now.plus_or_self(lease_for);
    store::lemma_due_in_range(expired.records, now, n);
    store::lemma_due_distinct(expired.records, now, n);
    lemma_due_in_order(expired.records, now, n);
    let order = store::due_order(expired.records, now, n);
    lemma_claims_are_sound(expired, order, worker, until, limit);
    let (end, claims) = s.claim(worker, now, lease_for, limit);
    assert forall|j: int, k: int| 0 <= j < k < claims.len() implies store::claimed_before(
        s.records,
        (#[trigger] claims[j]).id.value as int,
        (#[trigger] claims[k]).id.value as int,
    ) by {
        assert(store::claimed_before(
            expired.records,
            claims[j].id.value as int,
            claims[k].id.value as int,
        ));
    }
    if claims.len() < limit {
        assert forall|x: int| 0 <= x < s.records.len() implies !(#[trigger] end.records[x]).is_due(
            now,
        ) by {
            if expired.records[x].is_due(now) {
                assert(order.contains(x));
            } else {
                lemma_claim_all_others(expired, order, worker, until, limit, x);
            }
        }
    }
}

proof fn lemma_claims_write(
    s: StoreView,
    order: Seq<int>,
    worker: OutboxWorkerId,
    until: SystemTime,
    limit: nat,
)
    requires
        store::distinct(order),
        forall|k: int| 0 <= k < order.len() ==> 0 <= #[trigger] order[k] < s.records.len(),
        s.records.len() <= u64::MAX,
        s.last_token + order.len() <= u64::MAX,
    ensures
        ({
            let (end, claims) = s.claim_all(order, worker, until, limit);
            forall|k: int|
                0 <= k < claims.len() ==> {
                    let c = #[trigger] claims[k];
                    let i = c.id.value as int;
                    &&& order.contains(i)
                    &&& c.lease.worker == worker
                    &&& c.lease.until == until
                    &&& c.lease.token > s.last_token
                    &&& c.claim_count == (s.records[i].claim_count + 1) as u32
                    &&& end.records[i] == (RecordView {
                        claim_count: c.claim_count,
                        status: InMemoryStatus::Claimed(c.lease),
                        ..s.records[i]
                    })
                }
        }),
    decreases order.len(),
{
    if order.len() > 0 && limit > 0 {
        let (end, claims) = s.claim_all(order, worker, until, limit);
        let i = order[0];
        let after = s.claim_one(i, worker, until);
        let rest = order.drop_first();
        assert(order.contains(i));
        assert forall|k: int| 0 <= k < rest.len() implies 0 <= #[trigger] rest[k]
            < after.records.len() && rest[k] != i && order.contains(rest[k]) by {
            assert(rest[k] == order[k + 1]);
        }
        assert(store::distinct(rest)) by {
            assert forall|a: int, b: int| 0 <= a < b < rest.len() implies #[trigger] rest[a]
                != #[trigger] rest[b] by {
                assert(rest[a] == order[a + 1] && rest[b] == order[b + 1]);
            }
        }
        assert(!rest.contains(i)) by {
            if rest.contains(i) {
                let k = choose|k: int| 0 <= k < rest.len() && rest[k] == i;
                assert(rest[k] != i);
            }
        }
        let spent = s.records[i].attempt >= s.records[i].request.max_attempts@;
        let left: nat = if spent {
            limit
        } else {
            (limit - 1) as nat
        };
        lemma_claims_write(after, rest, worker, until, left);
        lemma_claim_all_others(after, rest, worker, until, left, i);
        let (last, tail) = after.claim_all(rest, worker, until, left);
        assert(end == last);
        assert forall|k: int| 0 <= k < claims.len() implies {
            let c = #[trigger] claims[k];
            let x = c.id.value as int;
            &&& order.contains(x)
            &&& c.lease.worker == worker
            &&& c.lease.until == until
            &&& c.lease.token > s.last_token
            &&& c.claim_count == (s.records[x].claim_count + 1) as u32
            &&& end.records[x] == (RecordView {
                claim_count: c.claim_count,
                status: InMemoryStatus::Claimed(c.lease),
                ..s.records[x]
            })
        } by {
            if spent || k > 0 {
                let c = if spent {
                    tail[k]
                } else {
                    tail[k - 1]
                };
                assert(claims[k] == c);
                let x = c.id.value as int;
                assert(rest.contains(x));
                let q = choose|q: int| 0 <= q < rest.len() && rest[q] == x;
                assert(rest[q] != i);
                assert(after.records[x] == s.records[x]);
            }
        }
    }
}

/// What a claim writes: the record is held by the worker, under a fresh
/// token, for the time asked for, and has been claimed once more; its
/// request, with the moment it became available, and its attempts stay. A
/// record that is not due once expired leases have ended is left alone: a
/// completed or failed one, and one whose lease still runs, stay as they are.
pub proof fn law_a_claim_writes_its_lease(
    s: StoreView,
    worker: OutboxWorkerId,
    lease_for: Duration,
    limit: nat,
    now: SystemTime,
)
    requires
        s.records.len() <= u64::MAX,
        s.last_token + s.records.len() <= u64::MAX,
    ensures
        ({
            let (end, claims) = s.claim(worker, now, lease_for, limit);
            &&& forall|k: int|
                0 <= k < claims.len() ==> {
                    let c = #[trigger] claims[k];
                    let i = c.id.value as int;
                    &&& 0 <= i < s.records.len()
                    &&& c.lease.worker == worker
                    &&& c.lease.until == now.plus_or_self(lease_for)
                    &&& c.lease.token > s.last_token
                    &&& c.claim_count == (s.records[i].claim_count + 1) as u32
                    &&& end.records[i] == (RecordView {
                        claim_count: c.claim_count,
                        status: InMemoryStatus::Claimed(c.lease),
                        ..s.records[i]
                    })
                }
            &&& forall|x: int|
                0 <= x < s.records.len() && !(#[trigger] s.records[x]).expired(now).is_due(now)
                    ==> end.records[x] == s.records[x].expired(now)
            &&& forall|x: int|
                0 <= x < s.records.len() && ((#[trigger] s.records[x]).status is Completed
                    || s.records[x].status is Failed || (s.records[x].status matches
                    InMemoryStatus::Claimed(lease) && lease.until.nanos > now.nanos))
                    ==> end.records[x] == s.records[x]
        }),
{
    let expired = s.expire(now);
    let n = expired.records.len();
    let until = now.plus_or_self(lease_for);
    store::lemma_due_in_range(expired.records, now, n);
    store::lemma_due_distinct(expired.records, now, n);
    let order = store::due_order(expired.records, now, n);
    lemma_claims_write(expired, order, worker, until, limit);
    let (end, claims) = s.claim(worker, now, lease_for, limit);
    assert forall|x: int|
        0 <= x < s.records.len() && !(#[trigger] s.records[x]).expired(now).is_due(
            now,
        ) implies end.records[x] == s.records[x].expired(now) by {
        assert(expired.records[x] == s.records[x].expired(now));
        assert(!order.contains(x));
        lemma_claim_all_others(expired, order, worker, until, limit, x);
    }
}

/// Nothing is lost: a record that was neither completed nor given up is
/// pending or held by a lease, and once that lease has expired the next
/// claim sees it as pending again.
pub proof fn law_open_records_can_be_claimed_again(s: StoreView, i: int, now: SystemTime)
    requires
        0 <= i < s.records.len(),
        !s.records[i].is_terminal(),
    ensures
        s.records[i].status matches InMemoryStatus::Claimed(lease) && lease.until.nanos
            > now.nanos || s.expire(now).records[i].status is Pending,
        s.expire(now).records[i].request == s.records[i].request,
        s.expire(now).records[i].attempt == s.records[i].attempt,
{
}

// ---------- delivery ----------

/// A request is performed only after a permit was granted and its attempt
/// was counted.
pub proof fn law_execution_follows_permit_and_attempt(
    d: Delivery,
    event: DeliveryEvent,
    settings: OutboxWorkerSettings,
    now: SystemTime,
)
    ensures
        d.next(event, settings, now) matches Some((after, action)) ==> {
            &&& action is Execute ==> d.phase is Beginning
            &&& after.phase is Executing ==> d.phase is Beginning && action
                == (DeliveryAction::Execute { attempt: after.phase->Executing_attempt })
            &&& after.phase is Beginning ==> d.phase is Acquiring && event
                == DeliveryEvent::Acquired(Ok::<(), OutboundAcquireError>(()))
        },
{
    match (d.phase, event) {
        (DeliveryPhase::Acquiring, DeliveryEvent::Acquired(Ok(u))) => {
            assert(u == ());
        },
        _ => {},
    }
}

/// How many steps a delivery still takes at most.
pub open spec fn steps_left(phase: DeliveryPhase) -> nat {
    match phase {
        DeliveryPhase::Acquiring => 5,
        DeliveryPhase::Beginning => 4,
        DeliveryPhase::Executing { .. } => 3,
        DeliveryPhase::Settling(_) => 2,
        DeliveryPhase::Storing => 1,
        DeliveryPhase::Done => 0,
    }
}

/// A delivery ends: every step brings it nearer to its end, it ends right
/// after its outcome was stored, and a granted permit is given back before.
pub proof fn law_delivery_ends_with_a_stored_outcome(
    d: Delivery,
    event: DeliveryEvent,
    settings: OutboxWorkerSettings,
    now: SystemTime,
)
    ensures
        d.next(event, settings, now) matches Some((after, action)) ==> {
            &&& steps_left(after.phase) < steps_left(d.phase)
            &&& after.phase is Done <==> action is Finish
            &&& after.phase is Done ==> d.phase is Storing && event is Stored
            &&& after.phase is Storing <==> action is Store
            &&& after.phase is Storing ==> d.phase is Acquiring || d.phase is Settling
            &&& after.phase is Settling <==> action is CompletePermit
            &&& (after.id, after.max_attempts, after.lease) == (d.id, d.max_attempts, d.lease)
        },
{
}

/// A full, closed or superseding scheduler costs no attempt: while attempts
/// are left the record becomes available again later.
pub proof fn law_unavailable_scheduler_costs_no_attempt(
    d: Delivery,
    error: OutboundAcquireError,
    settings: OutboxWorkerSettings,
    now: SystemTime,
)
    requires
        d.phase is Acquiring,
        error is QueueFull || error is Closed || error is Superseded,
        d.attempt_before_start < d.max_attempts@,
    ensures
        d.next(DeliveryEvent::Acquired(Err(error)), settings, now) == Some(
            (
                Delivery { phase: DeliveryPhase::Storing, ..d },
                DeliveryAction::Store(
                    StoreAction::Reschedule(
                        OutboxRetry {
                            available_at: now.plus_or_self(settings.scheduler_retry_delay),
                            failure: OutboxFailure {
                                kind: OutboxFailureKind::SchedulerUnavailable,
                            },
                        },
                    ),
                ),
            ),
        ),
{
}

/// The backoff never exceeds the maximum, starts at the base, and never
/// shrinks from one attempt to the next.
pub proof fn law_backoff_grows_up_to_the_maximum(base: u64, max: u64, attempt: u32)
    requires
        attempt < u32::MAX,
    ensures
        0 <= worker::backoff_nanos(base, max, attempt) <= max,
        base <= max ==> worker::backoff_nanos(base, max, 1) == base,
        worker::backoff_nanos(base, max, attempt) <= worker::backoff_nanos(
            base,
            max,
            (attempt + 1) as u32,
        ),
{
    power2::lemma2_to64();
    let a: nat = if attempt > 1 {
        (attempt - 1) as nat
    } else {
        0
    };
    let b: nat = if attempt >= 1 {
        attempt as nat
    } else {
        0
    };
    let x = power2::pow2(a) as int;
    let y = power2::pow2(b) as int;
    if a < b {
        power2::lemma_pow2_strictly_increases(a, b);
    }
    assert(0 <= base * x <= base * y) by (nonlinear_arith)
        requires
            0 <= x <= y,
            base >= 0,
    ;
    assert(base * 1 == base);
}

/// A failing request is tried at most as often as it may: a retry is stored
/// only while attempts are left, else the record fails as exhausted.
pub proof fn law_retries_are_bounded(
    attempt: u32,
    max_attempts: u32,
    failure: OutboxFailure,
    delay: Duration,
    now: SystemTime,
)
    ensures
        worker::retry_action(attempt, max_attempts, failure, delay, now) is Reschedule <==> attempt
            < max_attempts,
        attempt >= max_attempts ==> worker::retry_action(
            attempt,
            max_attempts,
            failure,
            delay,
            now,
        ) == StoreAction::Fail(OutboxFailure { kind: OutboxFailureKind::Exhausted }),
{
}

} // verus!
